//! Unique ids that two surviving rows share.

use std::collections::HashMap;

use vstd::prelude::*;

use crate::conflict;
use crate::conflict::{Conflict, ConflictKind, ConflictModel, DisplayValue};
use crate::cycles;
use crate::cycles::path_in_graph;
use crate::dom;
use crate::graph;
use crate::graph::{GraphModel, MergedGraph, NodeModel};
use crate::keyed;
use crate::keyed::find;
use crate::resolve;
use crate::resolve::{Resolutions, ResolutionsModel};
use crate::text;
use crate::text::hex_string;
use crate::value;
use crate::value::read_unique_id;

verus! {

broadcast use vstd::std_specs::hash::group_hash_axioms;

/// The unique id of a row, unless it is nil.
pub open spec fn row_unique_id(node: Option<NodeModel>) -> Option<u128> {
    match node {
        Some(node) => match keyed::lookup(node.properties, dom::unique_id_key()) {
            Some(p) => match value::unique_id_value(p.value) {
                Some(u) if u != 0 => Some(u),
                _ => None,
            },
            None => None,
        },
        None => None,
    }
}

/// The first row that has a unique id, among those below `n`.
pub open spec fn first_holder(g: GraphModel, id: u128, n: int) -> Option<usize>
    decreases n,
{
    if n <= 0 {
        None
    } else {
        match first_holder(g, id, n - 1) {
            Some(r) => Some(r),
            None => if row_unique_id(g[n - 1]) == Some(id) {
                Some((n - 1) as usize)
            } else {
                None
            },
        }
    }
}

/// The row that had the unique id of row `r` before it.
pub open spec fn collides_with(g: GraphModel, r: int) -> Option<usize> {
    match row_unique_id(g[r]) {
        Some(id) => first_holder(g, id, r),
        None => None,
    }
}

pub open spec fn collision_decided(resolutions: ResolutionsModel, g: GraphModel, r: int) -> bool {
    resolve::resolution(
        resolutions,
        ConflictKind::UniqueIdCollision,
        cycles::graph_path(g, r as usize),
        Some(dom::unique_id_key()),
    ) is Some
}

/// A row after the decision on a collision: the later holder loses the id.
pub open spec fn cleared_row(resolutions: ResolutionsModel, g: GraphModel, r: int) -> Option<
    NodeModel,
> {
    if collides_with(g, r) is Some && collision_decided(resolutions, g, r) {
        Some(graph::without_property(g[r]->0, dom::unique_id_key()))
    } else {
        g[r]
    }
}

pub open spec fn cleared(resolutions: ResolutionsModel, g: GraphModel) -> GraphModel {
    Seq::new(g.len(), |r: int| cleared_row(resolutions, g, r))
}

/// The conflict about a collision.
pub open spec fn collision_conflict(g: GraphModel, r: int) -> ConflictModel {
    let node = g[r]->0;
    ConflictModel {
        kind: ConflictKind::UniqueIdCollision,
        path: cycles::graph_path(g, r as usize),
        class: node.class,
        name: node.name,
        property: Some(dom::unique_id_key()),
        base: Some("also assigned to "@ + cycles::graph_path(g, collides_with(g, r)->0)),
        ours: Some(text::hex_digits(row_unique_id(g[r])->0 as nat, 32)),
        theirs: None,
    }
}

/// The conflicts about collisions of the rows below `n`.
pub open spec fn collision_conflicts(
    resolutions: ResolutionsModel,
    g: GraphModel,
    n: int,
    before: Seq<ConflictModel>,
) -> Seq<ConflictModel>
    decreases n,
{
    if n <= 0 {
        before
    } else {
        let so_far = collision_conflicts(resolutions, g, n - 1, before);
        if collides_with(g, n - 1) is Some && !collision_decided(resolutions, g, n - 1) {
            so_far.push(collision_conflict(g, n - 1))
        } else {
            so_far
        }
    }
}

/// What is known of the holders once the first `n` rows were looked at.
spec fn holders(g: GraphModel, n: int, seen: Map<u128, usize>) -> bool {
    forall|id: u128|
        (#[trigger] seen.contains_key(id) <==> first_holder(g, id, n) is Some) && (
        seen.contains_key(id) ==> first_holder(g, id, n) == Some(seen[id]))
}

fn find_unique_id(graph: &MergedGraph, r: usize) -> (res: Option<u128>)
    requires
        r < graph@.len(),
    ensures
        res == row_unique_id(graph@[r as int]),
{
    match graph.get(r) {
        Some(node) => match find(&node.properties, "UniqueId") {
            Some(p) => match read_unique_id(&p.value) {
                Some(u) => if u != 0 {
                    Some(u)
                } else {
                    None
                },
                None => None,
            },
            None => None,
        },
        None => None,
    }
}

fn make_conflict(graph: &MergedGraph, r: usize, first: usize, id: u128) -> (res: Conflict)
    requires
        r < graph@.len(),
        graph@[r as int] is Some,
        collides_with(graph@, r as int) == Some(first),
        row_unique_id(graph@[r as int]) == Some(id),
    ensures
        res@ == collision_conflict(graph@, r as int),
{
    let mut base = "also assigned to ".to_owned();
    base.append(path_in_graph(graph, first).as_str());
    let (class, name): (String, String) = match graph.get(r) {
        Some(node) => (node.class.clone(), node.name.clone()),
        None => (String::new(), String::new()),
    };
    Conflict {
        kind: ConflictKind::UniqueIdCollision,
        path: path_in_graph(graph, r),
        class,
        name,
        property: Some("UniqueId".to_owned()),
        base: Some(DisplayValue::new(base)),
        ours: Some(DisplayValue::new(hex_string(id))),
        theirs: None,
    }
}

proof fn lemma_holder_step(g: GraphModel, r: int, seen: Map<u128, usize>, after: Map<u128, usize>)
    requires
        0 <= r <= usize::MAX,
        holders(g, r, seen),
        match row_unique_id(g[r]) {
            Some(id) => after == (if seen.contains_key(id) {
                seen
            } else {
                seen.insert(id, r as usize)
            }),
            None => after == seen,
        },
    ensures
        holders(g, r + 1, after),
{
    assert forall|id: u128|
        (#[trigger] after.contains_key(id) <==> first_holder(g, id, r + 1) is Some) && (
        after.contains_key(id) ==> first_holder(g, id, r + 1) == Some(after[id])) by {
        assert(seen.contains_key(id) <==> first_holder(g, id, r) is Some);
    }
}

/// A unique id has a surviving holder.
pub proof fn lemma_first_holder(g: GraphModel, id: u128, n: int)
    requires
        0 <= n <= g.len(),
        n <= usize::MAX,
    ensures
        match first_holder(g, id, n) {
            Some(r) => r < n && row_unique_id(g[r as int]) == Some(id) && g[r as int] is Some,
            None => forall|r: int| 0 <= r < n ==> row_unique_id(#[trigger] g[r]) != Some(id),
        },
    decreases n,
{
    if n > 0 {
        lemma_first_holder(g, id, n - 1);
    }
}

/// Takes unique ids away from the later holders where collisions are decided, and
/// reports the others.
pub fn detect_unique_id_collisions(
    graph: &mut MergedGraph,
    resolutions: &Resolutions,
    conflicts: &mut Vec<Conflict>,
)
    ensures
        final(graph)@ == cleared(resolutions@, old(graph)@),
        conflict::conflicts_view(final(conflicts)@) == collision_conflicts(
            resolutions@,
            old(graph)@,
            old(graph)@.len() as int,
            conflict::conflicts_view(old(conflicts)@),
        ),
{
    let ghost g = graph@;
    let ghost start = conflict::conflicts_view(conflicts@);
    let rows: usize = graph.rows;
    let mut seen: HashMap<u128, usize> = HashMap::new();
    let mut clear: Vec<bool> = Vec::new();
    let mut r: usize = 0;
    while r < rows
        invariant
            r <= rows,
            rows == g.len(),
            graph@ == g,
            clear.len() == r,
            holders(g, r as int, seen@),
            forall|k: int|
                0 <= k < r ==> #[trigger] clear@[k] == (collides_with(g, k) is Some
                    && collision_decided(resolutions@, g, k)),
            conflict::conflicts_view(conflicts@) == collision_conflicts(
                resolutions@,
                g,
                r as int,
                start,
            ),
        decreases rows - r,
    {
        let ghost before = seen@;
        let mut drop_id = false;
        if let Some(id) = find_unique_id(graph, r) {
            assert(seen@.contains_key(id) <==> first_holder(g, id, r as int) is Some);
            let holder: Option<usize> = match seen.get(&id) {
                Some(first) => Some(*first),
                None => None,
            };
            match holder {
                None => {
                    seen.insert(id, r);
                },
                Some(first) => {
                    let path = path_in_graph(graph, r);
                    let decided = resolutions.lookup(
                        ConflictKind::UniqueIdCollision,
                        path.as_str(),
                        Some("UniqueId"),
                    );
                    if decided.is_some() {
                        drop_id = true;
                    } else {
                        let ghost so_far = conflict::conflicts_view(conflicts@);
                        let conflict = make_conflict(graph, r, first, id);
                        let ghost added = conflict@;
                        conflicts.push(conflict);
                        assert(conflict::conflicts_view(conflicts@) =~= so_far.push(added));
                    }
                },
            }
        }
        clear.push(drop_id);
        proof {
            lemma_holder_step(g, r as int, before, seen@);
        }
        r += 1;
    }
    r = 0;
    while r < rows
        invariant
            r <= rows,
            rows == g.len(),
            graph@.len() == g.len(),
            clear.len() == rows,
            forall|k: int|
                0 <= k < rows ==> #[trigger] clear@[k] == (collides_with(g, k) is Some
                    && collision_decided(resolutions@, g, k)),
            forall|k: int| 0 <= k < r ==> #[trigger] graph@[k] == cleared_row(resolutions@, g, k),
            forall|k: int| r <= k < rows ==> #[trigger] graph@[k] == g[k],
        decreases rows - r,
    {
        assert(graph@[r as int] == g[r as int]);
        assert(clear@[r as int] == (collides_with(g, r as int) is Some && collision_decided(
            resolutions@,
            g,
            r as int,
        )));
        if clear[r] {
            graph.remove_property(r, "UniqueId");
        }
        r += 1;
    }
    assert(graph@ =~= cleared(resolutions@, g));
}

} // verus!
