//! Parents that form a loop, and the path of a row through the merged parents.

use std::collections::HashMap;

use vstd::prelude::*;

use crate::conflict;
use crate::conflict::{Conflict, ConflictKind, ConflictModel};
use crate::context;
use crate::context::{node_conflict, Ctx, MergeCtx};
use crate::graph::{GraphModel, MergedGraph, NodeModel};
use crate::resolve;
use crate::rows;
use crate::rows::show_parents;
use crate::semantic::SemanticDom;
use crate::text;
use crate::text::{join_strings, Text};

verus! {

broadcast use vstd::std_specs::hash::group_hash_axioms;

/// The merged parent of a row.
pub open spec fn up(g: GraphModel, r: usize) -> Option<usize> {
    if r < g.len() && g[r as int] is Some {
        g[r as int]->0.parent
    } else {
        None
    }
}

/// The row `k` steps above a row; the way up ends at the root.
pub open spec fn above(g: GraphModel, start: usize, k: nat) -> Option<usize>
    decreases k,
{
    if k == 0 {
        Some(start)
    } else {
        match above(g, start, (k - 1) as nat) {
            Some(x) => if k > 1 && x == 0 {
                None
            } else {
                up(g, x)
            },
            None => None,
        }
    }
}

/// Whether the way up from a row leads back to it.
pub open spec fn on_cycle(g: GraphModel, start: usize) -> bool {
    exists|k: nat| k >= 1 && #[trigger] above(g, start, k) == Some(start)
}

/// Parents of surviving rows are rows.
pub open spec fn parents_wf(g: GraphModel) -> bool {
    forall|r: int|
        0 <= r < g.len() && (#[trigger] g[r]) is Some ==> (g[r]->0.parent matches Some(p) ==> p
            < g.len())
}

/// Once the way up ends, it has ended.
proof fn lemma_above_ended(g: GraphModel, start: usize, i: nat, k: nat)
    requires
        above(g, start, i) is None,
        i <= k,
    ensures
        above(g, start, k) is None,
    decreases k,
{
    if i < k {
        lemma_above_ended(g, start, i, (k - 1) as nat);
    }
}

/// Two places on the way up that are the same row have the same way up.
proof fn lemma_above_shift(g: GraphModel, start: usize, i: nat, j: nat, m: nat)
    requires
        1 <= i <= j,
        above(g, start, i) == above(g, start, j),
    ensures
        above(g, start, i + m) == above(g, start, j + m),
    decreases m,
{
    if m > 0 {
        lemma_above_shift(g, start, i, j, (m - 1) as nat);
        let a = (i + m) as nat;
        let b = (j + m) as nat;
        assert((a - 1) as nat == i + (m - 1));
        assert((b - 1) as nat == j + (m - 1));
    }
}

/// A way up that runs into a loop without having met its start never meets it.
proof fn lemma_loop_misses(g: GraphModel, start: usize, i: nat, j: nat, k: nat)
    requires
        1 <= i < j,
        above(g, start, i) == above(g, start, j),
        forall|l: nat| 1 <= l <= j ==> #[trigger] above(g, start, l) != Some(start),
        k >= 1,
    ensures
        above(g, start, k) != Some(start),
    decreases k,
{
    if k > j {
        let m = (k - j) as nat;
        lemma_above_shift(g, start, i, j, m);
        assert(j + m == k);
        lemma_loop_misses(g, start, i, j, i + m);
    }
}

/// A set of rows below `n` has no more than `n` members.
pub proof fn lemma_few_rows(s: Set<usize>, n: nat)
    requires
        s.finite(),
        forall|x: usize| #[trigger] s.contains(x) ==> x < n,
    ensures
        s.len() <= n,
    decreases n,
{
    if n == 0 {
        if s.len() > 0 {
            let x = s.choose();
            assert(s.contains(x));
        }
    } else {
        let t = s.remove((n - 1) as usize);
        assert forall|x: usize| #[trigger] t.contains(x) implies x < n - 1 by {
            assert(s.contains(x));
        }
        lemma_few_rows(t, (n - 1) as nat);
    }
}

/// Tells whether the way up from a row leads back to it.
pub fn node_is_on_parent_cycle(graph: &MergedGraph, start: usize) -> (res: bool)
    requires
        parents_wf(graph@),
        start < graph@.len(),
    ensures
        res == on_cycle(graph@, start),
{
    let ghost g = graph@;
    let mut visited: HashMap<usize, bool> = HashMap::new();
    let mut current: Option<usize> = match graph.get(start) {
        Some(node) => node.parent,
        None => None,
    };
    let ghost mut k: nat = 1;
    proof {
        assert(above(g, start, 0) == Some(start));
        assert(current == above(g, start, 1));
        if g[start as int] is Some {
            assert(g[start as int]->0.parent matches Some(p) ==> p < g.len());
        }
    }
    while current.is_some()
        invariant
            g == graph@,
            parents_wf(g),
            k >= 1,
            current == above(g, start, k),
            current matches Some(p) ==> p < g.len(),
            forall|l: nat| 1 <= l < k ==> #[trigger] above(g, start, l) != Some(start),
            forall|x: usize| #[trigger]
                visited@.contains_key(x) ==> x < g.len() && exists|l: nat|
                    1 <= l < k && #[trigger] above(g, start, l) == Some(x),
            visited@.dom().finite(),
        decreases g.len() - visited@.dom().len() + (if current is Some {
            1int
        } else {
            0int
        }),
    {
        let row: usize = current.unwrap();
        if row == start {
            assert(above(g, start, k) == Some(start));
            return true;
        }
        proof {
            assert(visited@.dom().finite());
            lemma_few_rows(visited@.dom(), g.len());
        }
        if row == 0 {
            proof {
                assert forall|m: nat| m >= 1 implies #[trigger] above(g, start, m) != Some(start) by {
                    if m > k {
                        assert(above(g, start, (k + 1) as nat) is None);
                        lemma_above_ended(g, start, (k + 1) as nat, m);
                    }
                }
            }
            return false;
        }
        if visited.contains_key(&row) {
            proof {
                let i = choose|l: nat|
                    1 <= l < k && #[trigger] above(g, start, l) == Some(row);
                assert forall|l: nat| 1 <= l <= k implies #[trigger] above(g, start, l) != Some(
                    start,
                ) by {}
                assert forall|m: nat| m >= 1 implies #[trigger] above(g, start, m) != Some(start) by {
                    lemma_loop_misses(g, start, i, k, m);
                }
            }
            return false;
        }
        let ghost before = visited@;
        visited.insert(row, true);
        current = match graph.get(row) {
            Some(node) => node.parent,
            None => None,
        };
        proof {
            assert(above(g, start, k) == Some(row));
            assert(current == above(g, start, (k + 1) as nat));
            if g[row as int] is Some {
                assert(g[row as int]->0.parent matches Some(p) ==> p < g.len());
            }
            assert(visited@.dom() =~= before.dom().insert(row));
            assert forall|x: usize| #[trigger] visited@.contains_key(x) implies x < g.len()
                && exists|l: nat| 1 <= l < k + 1 && #[trigger] above(g, start, l) == Some(x) by {
                if x == row {
                    assert(above(g, start, k) == Some(x));
                } else {
                    assert(before.contains_key(x));
                    let l = choose|l: nat|
                        1 <= l < k && #[trigger] above(g, start, l) == Some(x);
                    assert(above(g, start, l) == Some(x));
                }
            }
            lemma_few_rows(visited@.dom(), g.len());
            k = k + 1;
        }
    }
    proof {
        assert forall|m: nat| m >= 1 implies #[trigger] above(g, start, m) != Some(start) by {
            if m >= k {
                lemma_above_ended(g, start, k, m);
            }
        }
    }
    false
}

// ---------------------------------------------------------------------------
// Paths
// ---------------------------------------------------------------------------

/// The names on the way up from a row, the topmost first. The way ends at the
/// root, at a row that did not survive, and where it would come to a row again.
pub open spec fn names_above(g: GraphModel, current: Option<usize>, seen: Seq<usize>) -> Seq<Text>
    decreases g.len() - seen.len(),
{
    match current {
        None => Seq::empty(),
        Some(r) => if r == 0 || r >= g.len() || g[r as int] is None || seen.contains(r)
            || seen.len() >= g.len() {
            Seq::empty()
        } else {
            names_above(g, g[r as int]->0.parent, seen.push(r)).push(g[r as int]->0.name)
        },
    }
}

/// The dotted path of a row through the merged parents.
pub open spec fn graph_path(g: GraphModel, r: usize) -> Text {
    if r == 0 {
        "<root>"@
    } else {
        text::join(names_above(g, Some(r), Seq::empty()), "."@)
    }
}

fn list_contains(list: &Vec<usize>, x: usize) -> (res: bool)
    ensures
        res == list@.contains(x),
{
    let mut i: usize = 0;
    while i < list.len()
        invariant
            i <= list.len(),
            forall|k: int| 0 <= k < i ==> list@[k] != x,
        decreases list.len() - i,
    {
        if list[i] == x {
            assert(list@[i as int] == x);
            return true;
        }
        i += 1;
    }
    false
}

fn collect_names(graph: &MergedGraph, current: Option<usize>, seen: &mut Vec<usize>) -> (res: Vec<
    String,
>)
    ensures
        text::strings_view(res@) == names_above(graph@, current, old(seen)@),
    decreases graph@.len() - old(seen)@.len(),
{
    let ghost before = seen@;
    if let Some(r) = current {
        if r != 0 && r < graph.rows && seen.len() < graph.rows {
            if let Some(node) = graph.get(r) {
                if !list_contains(seen, r) {
                    seen.push(r);
                    let mut names = collect_names(graph, node.parent, seen);
                    let ghost above = text::strings_view(names@);
                    names.push(node.name.clone());
                    assert(text::strings_view(names@) =~= above.push(node@.name));
                    return names;
                }
            }
        }
    }
    let names: Vec<String> = Vec::new();
    assert(text::strings_view(names@) =~= Seq::<Text>::empty());
    names
}

/// Writes the dotted path of a row through the merged parents.
pub fn path_in_graph(graph: &MergedGraph, r: usize) -> (res: String)
    ensures
        res@ == graph_path(graph@, r),
{
    if r == 0 {
        return "<root>".to_owned();
    }
    let mut seen: Vec<usize> = Vec::new();
    assert(seen@ =~= Seq::<usize>::empty());
    join_strings(&collect_names(graph, Some(r), &mut seen), ".")
}

// ---------------------------------------------------------------------------
// Loops
// ---------------------------------------------------------------------------

pub open spec fn is_member(g: GraphModel, r: int) -> bool {
    g[r] is Some && on_cycle(g, r as usize)
}

/// The side that a loop through a row is decided for.
pub open spec fn cycle_decision(ctx: Ctx, r: int) -> Option<resolve::Side> {
    resolve::resolution(
        ctx.resolutions,
        ConflictKind::ParentCycle,
        ctx.subject_path(ctx.rows.entries[r]),
        None,
    )
}

/// A row with the parent that it has on a side.
pub open spec fn repointed_row(ctx: Ctx, g: GraphModel, r: int) -> Option<NodeModel> {
    if is_member(g, r) && cycle_decision(ctx, r) is Some {
        Some(
            NodeModel {
                parent: ctx.parents(ctx.rows.entries[r]).of(cycle_decision(ctx, r)->0),
                ..g[r]->0
            },
        )
    } else {
        g[r]
    }
}

/// The graph after one round of decisions on loops: every member of a loop that is
/// decided gets the parent that it has on the side chosen.
pub open spec fn repointed_once(ctx: Ctx, g: GraphModel) -> GraphModel {
    Seq::new(g.len(), |r: int| repointed_row(ctx, g, r))
}

/// The graph after `n` rounds of decisions on loops.
pub open spec fn rounds(ctx: Ctx, g: GraphModel, n: nat) -> GraphModel
    decreases n,
{
    if n == 0 {
        g
    } else {
        repointed_once(ctx, rounds(ctx, g, (n - 1) as nat))
    }
}

/// The parent of a row after the decisions on loops. Another parent may close another
/// loop, so there are as many rounds as rows, after which no round changes anything.
pub open spec fn parent_after(ctx: Ctx, g: GraphModel, r: int) -> Option<usize> {
    rounds(ctx, g, g.len())[r]->0.parent
}

/// The graph after the decisions on loops: every row with its parent after them.
pub open spec fn repointed(ctx: Ctx, g: GraphModel) -> GraphModel {
    Seq::new(
        g.len(),
        |r: int|
            match g[r] {
                Some(node) => Some(NodeModel { parent: parent_after(ctx, g, r), ..node }),
                None => None,
            },
    )
}

/// The conflicts about the rows below `n` that are on a loop after all decisions.
pub open spec fn cycle_conflicts(ctx: Ctx, g: GraphModel, n: int, before: Seq<ConflictModel>) -> Seq<
    ConflictModel,
>
    decreases n,
{
    if n <= 0 {
        before
    } else {
        let so_far = cycle_conflicts(ctx, g, n - 1, before);
        if is_member(repointed(ctx, g), n - 1) {
            let entry = ctx.rows.entries[n - 1];
            so_far.push(
                context::conflict_at(
                    ctx.subject(entry).0,
                    ctx.subject(entry).1,
                    ConflictKind::ParentCycle,
                    None,
                    rows::parent_labels(ctx, entry),
                ),
            )
        } else {
            so_far
        }
    }
}

/// The parent of a row on the side that a loop through it is decided for.
pub open spec fn decided_parent(ctx: Ctx, r: int) -> Option<usize> {
    ctx.parents(ctx.rows.entries[r]).of(cycle_decision(ctx, r)->0)
}

/// Whether a row is the same but for its parent, which may be the one decided.
pub open spec fn row_kept(ctx: Ctx, a: Option<NodeModel>, b: Option<NodeModel>, r: int) -> bool {
    match (a, b) {
        (Some(x), Some(y)) => {
            &&& y == NodeModel { parent: y.parent, ..x }
            &&& y.parent == x.parent || (cycle_decision(ctx, r) is Some && y.parent
                == decided_parent(ctx, r))
        },
        (None, None) => true,
        _ => false,
    }
}

/// Rounds of decisions change nothing but parents.
pub proof fn lemma_rounds_keep(ctx: Ctx, g: GraphModel, n: nat)
    ensures
        rounds(ctx, g, n).len() == g.len(),
        forall|r: int|
            0 <= r < g.len() ==> row_kept(ctx, g[r], #[trigger] rounds(ctx, g, n)[r], r),
    decreases n,
{
    if n > 0 {
        let h = rounds(ctx, g, (n - 1) as nat);
        lemma_rounds_keep(ctx, g, (n - 1) as nat);
        assert forall|r: int| 0 <= r < g.len() implies row_kept(
            ctx,
            g[r],
            #[trigger] rounds(ctx, g, n)[r],
            r,
        ) by {
            assert(row_kept(ctx, g[r], h[r], r));
            assert(rounds(ctx, g, n)[r] == repointed_row(ctx, h, r));
        }
    }
}

/// The graph after the decisions on loops is that of the last round.
pub proof fn lemma_repointed(ctx: Ctx, g: GraphModel)
    ensures
        repointed(ctx, g) == rounds(ctx, g, g.len()),
{
    let (h, last) = (repointed(ctx, g), rounds(ctx, g, g.len()));
    lemma_rounds_keep(ctx, g, g.len());
    assert forall|r: int| 0 <= r < g.len() implies h[r] == #[trigger] last[r] by {
        assert(row_kept(ctx, g[r], last[r], r));
    }
    assert(h =~= last);
}

/// Where no row is on a loop, the rounds change nothing.
pub proof fn lemma_rounds_without_loops(ctx: Ctx, g: GraphModel, n: nat)
    requires
        forall|r: int| 0 <= r < g.len() ==> !(#[trigger] is_member(g, r)),
    ensures
        rounds(ctx, g, n) == g,
    decreases n,
{
    if n > 0 {
        lemma_rounds_without_loops(ctx, g, (n - 1) as nat);
        assert(rounds(ctx, g, n) =~= g);
    }
}

/// Where nothing is decided, the rounds change nothing.
proof fn lemma_rounds_undecided(ctx: Ctx, g: GraphModel, n: nat)
    requires
        forall|r: int| 0 <= r < g.len() ==> (#[trigger] cycle_decision(ctx, r)) is None,
    ensures
        rounds(ctx, g, n) == g,
    decreases n,
{
    if n > 0 {
        lemma_rounds_undecided(ctx, g, (n - 1) as nat);
        assert(rounds(ctx, g, n) =~= g);
    }
}

/// Where no row is on a loop, or nothing is decided, the graph stays as it is.
pub proof fn lemma_repointed_unchanged(ctx: Ctx, g: GraphModel)
    requires
        (forall|r: int| 0 <= r < g.len() ==> !(#[trigger] is_member(g, r))) || (forall|r: int|
            0 <= r < g.len() ==> (#[trigger] cycle_decision(ctx, r)) is None),
    ensures
        repointed(ctx, g) == g,
{
    lemma_repointed(ctx, g);
    if forall|r: int| 0 <= r < g.len() ==> !(#[trigger] is_member(g, r)) {
        lemma_rounds_without_loops(ctx, g, g.len());
    } else {
        lemma_rounds_undecided(ctx, g, g.len());
    }
}

/// A round that changes nothing is followed by rounds that change nothing.
proof fn lemma_rounds_rest(ctx: Ctx, g: GraphModel, a: nat, b: nat)
    requires
        repointed_once(ctx, rounds(ctx, g, a)) == rounds(ctx, g, a),
        a <= b,
    ensures
        rounds(ctx, g, b) == rounds(ctx, g, a),
    decreases b,
{
    if a < b {
        lemma_rounds_rest(ctx, g, a, (b - 1) as nat);
    }
}

/// The rows that are decided and do not have the parent decided.
spec fn pending(ctx: Ctx, g: GraphModel) -> Set<int> {
    vstd::set_lib::set_int_range(0, g.len() as int).filter(
        |r: int|
            g[r] is Some && cycle_decision(ctx, r) is Some && g[r]->0.parent != decided_parent(
                ctx,
                r,
            ),
    )
}

proof fn lemma_pending_few(ctx: Ctx, g: GraphModel)
    ensures
        pending(ctx, g).finite(),
        pending(ctx, g).len() <= g.len(),
{
    let all = vstd::set_lib::set_int_range(0, g.len() as int);
    vstd::set_lib::lemma_int_range(0, g.len() as int);
    vstd::set_lib::lemma_len_subset(pending(ctx, g), all);
}

/// A round that changes a parent leaves fewer rows to change.
proof fn lemma_round_settles(ctx: Ctx, g: GraphModel)
    requires
        repointed_once(ctx, g) != g,
    ensures
        pending(ctx, repointed_once(ctx, g)).len() < pending(ctx, g).len(),
{
    let h = repointed_once(ctx, g);
    let (a, b) = (pending(ctx, g), pending(ctx, h));
    if forall|r: int| 0 <= r < g.len() ==> #[trigger] h[r] == g[r] {
        assert(h =~= g);
    }
    let r = choose|r: int| 0 <= r < g.len() && #[trigger] h[r] != g[r];
    assert(h[r] == repointed_row(ctx, g, r));
    lemma_pending_few(ctx, g);
    assert(a.contains(r));
    assert(b.subset_of(a.remove(r))) by {
        assert forall|x: int| b.contains(x) implies a.remove(r).contains(x) by {
            assert(h[x] == repointed_row(ctx, g, x));
        }
    }
    vstd::set_lib::lemma_len_subset(b, a.remove(r));
}

proof fn lemma_rounds_settle(ctx: Ctx, g: GraphModel, n: nat)
    ensures
        ({
            let h = rounds(ctx, g, n);
            repointed_once(ctx, h) == h || pending(ctx, h).len() + n <= g.len()
        }),
    decreases n,
{
    if n == 0 {
        lemma_pending_few(ctx, g);
    } else {
        let h = rounds(ctx, g, (n - 1) as nat);
        lemma_rounds_settle(ctx, g, (n - 1) as nat);
        if repointed_once(ctx, h) != h {
            lemma_round_settles(ctx, h);
        }
    }
}

/// After all rounds another round changes nothing.
pub proof fn lemma_repointed_stable(ctx: Ctx, g: GraphModel)
    ensures
        repointed_once(ctx, repointed(ctx, g)) == repointed(ctx, g),
{
    let h = repointed(ctx, g);
    lemma_repointed(ctx, g);
    lemma_rounds_settle(ctx, g, g.len());
    if repointed_once(ctx, h) != h {
        lemma_round_settles(ctx, h);
    }
}

pub proof fn lemma_rounds_parents(ctx: Ctx, g: GraphModel, n: nat)
    requires
        ctx.wf(),
        g.len() == ctx.rows.entries.len(),
        parents_wf(g),
    ensures
        parents_wf(rounds(ctx, g, n)),
{
    let h = rounds(ctx, g, n);
    lemma_rounds_keep(ctx, g, n);
    assert forall|r: int| 0 <= r < h.len() && (#[trigger] h[r]) is Some implies (h[r]->0.parent matches Some(p)
        ==> p < h.len()) by {
        context::lemma_entry_wf(ctx, r);
        context::lemma_parents(ctx, ctx.rows.entries[r]);
        assert(row_kept(ctx, g[r], h[r], r));
        assert(g[r] is Some);
    }
}

/// Marks the rows that are on a loop.
fn mark_members(graph: &MergedGraph) -> (res: Vec<bool>)
    requires
        parents_wf(graph@),
    ensures
        res.len() == graph@.len(),
        forall|r: int| 0 <= r < graph@.len() ==> #[trigger] res@[r] == is_member(graph@, r),
{
    let mut res: Vec<bool> = Vec::new();
    let mut r: usize = 0;
    while r < graph.rows
        invariant
            r <= graph.rows,
            parents_wf(graph@),
            res.len() == r,
            forall|k: int| 0 <= k < r ==> #[trigger] res@[k] == is_member(graph@, k),
        decreases graph.rows - r,
    {
        let member = graph.get(r).is_some() && node_is_on_parent_cycle(graph, r);
        res.push(member);
        r += 1;
    }
    res
}

fn same_parent(a: Option<usize>, b: Option<usize>) -> (res: bool)
    ensures
        res == (a == b),
{
    match (a, b) {
        (Some(x), Some(y)) => x == y,
        (None, None) => true,
        _ => false,
    }
}

/// Gives every member of a loop that is decided the parent of the side chosen, and
/// tells whether that changed a parent.
fn repoint(ctx: &MergeCtx, graph: &mut MergedGraph) -> (changed: bool)
    requires
        ctx.wf(),
        old(graph)@.len() == ctx@.rows.entries.len(),
        parents_wf(old(graph)@),
    ensures
        final(graph)@ == repointed_once(ctx@, old(graph)@),
        !changed ==> final(graph)@ == old(graph)@,
{
    let ghost g = graph@;
    let members = mark_members(graph);
    let rows: usize = graph.rows;
    let mut changed = false;
    let mut r: usize = 0;
    while r < rows
        invariant
            r <= rows,
            ctx.wf(),
            rows == g.len(),
            g.len() == ctx@.rows.entries.len(),
            members.len() == g.len(),
            forall|k: int| 0 <= k < members@.len() ==> #[trigger] members@[k] == is_member(g, k),
            graph@.len() == g.len(),
            forall|k: int| 0 <= k < r ==> #[trigger] graph@[k] == repointed_row(ctx@, g, k),
            forall|k: int| r <= k < g.len() ==> #[trigger] graph@[k] == g[k],
            !changed ==> forall|k: int| 0 <= k < g.len() ==> #[trigger] graph@[k] == g[k],
        decreases rows - r,
    {
        assert(members@[r as int] == is_member(g, r as int));
        if members[r] {
            proof {
                context::lemma_entry_wf(ctx@, r as int);
            }
            let entry = ctx.identities.entry(r);
            let (dom, id): (&SemanticDom, usize) = ctx.conflict_subject(&entry);
            let path = dom.path(id);
            if let Some(side) = ctx.resolutions.lookup(
                ConflictKind::ParentCycle,
                path.as_str(),
                None,
            ) {
                let parent = ctx.side_parents(&entry).pick(side);
                assert(graph@[r as int] == g[r as int]);
                let current = match graph.get(r) {
                    Some(node) => node.parent,
                    None => None,
                };
                if !same_parent(current, parent) {
                    graph.set_parent(r, parent);
                    changed = true;
                }
            }
        }
        r += 1;
    }
    assert(graph@ =~= repointed_once(ctx@, g));
    assert(!changed ==> graph@ =~= g);
    changed
}

/// Breaks loops that are decided, and reports what is left of them. A parent that is
/// changed may close another loop, so this goes on until no parent changes.
pub fn detect_parent_cycles(ctx: &MergeCtx, graph: &mut MergedGraph, conflicts: &mut Vec<Conflict>)
    requires
        ctx.wf(),
        old(graph)@.len() == ctx@.rows.entries.len(),
        parents_wf(old(graph)@),
    ensures
        final(graph)@ == repointed(ctx@, old(graph)@),
        conflict::conflicts_view(final(conflicts)@) == cycle_conflicts(
            ctx@,
            old(graph)@,
            old(graph)@.len() as int,
            conflict::conflicts_view(old(conflicts)@),
        ),
{
    let ghost g = graph@;
    let ghost start = conflict::conflicts_view(conflicts@);
    let rows: usize = graph.rows;
    let mut changed = true;
    let mut round: usize = 0;
    while changed && round < rows
        invariant
            round <= rows,
            ctx.wf(),
            rows == g.len(),
            g.len() == ctx@.rows.entries.len(),
            parents_wf(g),
            graph@ == rounds(ctx@, g, round as nat),
            !changed ==> repointed_once(ctx@, graph@) == graph@,
        decreases rows - round,
    {
        proof {
            lemma_rounds_parents(ctx@, g, round as nat);
            lemma_rounds_keep(ctx@, g, round as nat);
        }
        changed = repoint(ctx, graph);
        round += 1;
    }
    proof {
        if round < rows {
            lemma_rounds_rest(ctx@, g, round as nat, g.len());
        }
        lemma_rounds_parents(ctx@, g, g.len());
        lemma_repointed(ctx@, g);
    }
    let members = mark_members(graph);
    let mut r: usize = 0;
    while r < rows
        invariant
            r <= rows,
            ctx.wf(),
            rows == g.len(),
            g.len() == ctx@.rows.entries.len(),
            members.len() == g.len(),
            forall|k: int|
                0 <= k < members@.len() ==> #[trigger] members@[k] == is_member(graph@, k),
            graph@ == repointed(ctx@, g),
            conflict::conflicts_view(conflicts@) == cycle_conflicts(ctx@, g, r as int, start),
        decreases rows - r,
    {
        assert(members@[r as int] == is_member(graph@, r as int));
        if members[r] {
            proof {
                context::lemma_entry_wf(ctx@, r as int);
            }
            let entry = ctx.identities.entry(r);
            let labels = show_parents(ctx, &entry);
            let (dom, id): (&SemanticDom, usize) = ctx.conflict_subject(&entry);
            let ghost before = conflict::conflicts_view(conflicts@);
            let conflict = node_conflict(ConflictKind::ParentCycle, dom, id, None, labels);
            let ghost added = conflict@;
            conflicts.push(conflict);
            assert(conflict::conflicts_view(conflicts@) =~= before.push(added));
        }
        r += 1;
    }
}

} // verus!
