//! References to rows that did not survive.

use std::collections::HashMap;

use vstd::prelude::*;

use crate::conflict;
use crate::conflict::{Conflict, ConflictKind, ConflictModel, DisplayValue};
use crate::context;
use crate::context::{Ctx, MergeCtx};
use crate::cycles;
use crate::cycles::path_in_graph;
use crate::diagnostics;
use crate::diagnostics::{dropped_reference_diagnostic, Diagnostic, DiagnosticModel};
use crate::graph;
use crate::graph::{GraphModel, MergedGraph, MergedInstance, NodeModel};
use crate::identity::MergeEntry;
use crate::keyed;
use crate::keyed::find;
use crate::resolve;
use crate::semantic;
use crate::semantic::{InstanceModel, SemanticInstance};
use crate::text::Text;
use crate::value;
use crate::value::{Value, ValueModel};

verus! {

broadcast use vstd::std_specs::hash::group_hash_axioms;

// ---------------------------------------------------------------------------
// Rows that did not survive
// ---------------------------------------------------------------------------

/// Notes down the referent of an instance.
pub open spec fn with_ref(m: Map<u128, usize>, node: Option<InstanceModel>, row: int) -> Map<
    u128,
    usize,
> {
    match node {
        Some(node) => m.insert(node.source_ref, row as usize),
        None => m,
    }
}

/// The rows below `n` that did not survive, by the referents that they have on
/// the three sides. Where several have a referent, the last one counts.
pub open spec fn dropped(ctx: Ctx, g: GraphModel, n: int) -> Map<u128, usize>
    decreases n,
{
    if n <= 0 {
        Map::empty()
    } else {
        let before = dropped(ctx, g, n - 1);
        if g[n - 1] is Some {
            before
        } else {
            let nodes = ctx.nodes(ctx.rows.entries[n - 1]);
            with_ref(
                with_ref(with_ref(before, nodes.base, n - 1), nodes.ours, n - 1),
                nodes.theirs,
                n - 1,
            )
        }
    }
}

pub proof fn lemma_dropped(ctx: Ctx, g: GraphModel, n: int, referent: u128)
    requires
        0 <= n <= g.len(),
        n <= usize::MAX,
        dropped(ctx, g, n).contains_key(referent),
    ensures
        dropped(ctx, g, n)[referent] < n,
        g[dropped(ctx, g, n)[referent] as int] is None,
    decreases n,
{
    if n > 0 {
        if dropped(ctx, g, n - 1).contains_key(referent) {
            lemma_dropped(ctx, g, n - 1, referent);
        }
    }
}

fn note_ref(map: &mut HashMap<u128, usize>, node: Option<&SemanticInstance>, row: usize)
    ensures
        final(map)@ == with_ref(old(map)@, context::instance_view(node), row as int),
{
    if let Some(node) = node {
        map.insert(node.source_ref, row);
    }
}

/// Lists the rows that did not survive by their referents.
fn dropped_referents(ctx: &MergeCtx, graph: &MergedGraph) -> (res: HashMap<u128, usize>)
    requires
        ctx.wf(),
        graph@.len() == ctx@.rows.entries.len(),
    ensures
        res@ == dropped(ctx@, graph@, graph@.len() as int),
{
    let mut map: HashMap<u128, usize> = HashMap::new();
    let mut r: usize = 0;
    assert(map@ =~= dropped(ctx@, graph@, 0));
    while r < graph.rows
        invariant
            r <= graph.rows,
            ctx.wf(),
            graph@.len() == ctx@.rows.entries.len(),
            map@ == dropped(ctx@, graph@, r as int),
        decreases graph.rows - r,
    {
        if graph.get(r).is_none() {
            proof {
                context::lemma_entry_wf(ctx@, r as int);
            }
            let entry = ctx.identities.entry(r);
            let nodes = ctx.nodes(&entry);
            note_ref(&mut map, nodes.base, r);
            note_ref(&mut map, nodes.ours, r);
            note_ref(&mut map, nodes.theirs, r);
        }
        r += 1;
    }
    map
}

/// The path of a row that did not survive: that of the base where it has one,
/// else of ours, else of theirs.
pub open spec fn dropped_path(ctx: Ctx, entry: MergeEntry) -> Text {
    match (entry.base, entry.ours, entry.theirs) {
        (Some(i), _, _) => semantic::dom_path(ctx.base, i as int),
        (None, Some(i), _) => semantic::dom_path(ctx.ours, i as int),
        (None, None, Some(i)) => semantic::dom_path(ctx.theirs, i as int),
        (None, None, None) => "<unknown>"@,
    }
}

fn deleted_identity_path(ctx: &MergeCtx, entry: &MergeEntry) -> (res: String)
    requires
        ctx.wf(),
        context::entry_wf(ctx@, *entry),
    ensures
        res@ == dropped_path(ctx@, *entry),
{
    if let Some(id) = entry.base {
        ctx.base.path(id)
    } else if let Some(id) = entry.ours {
        ctx.ours.path(id)
    } else if let Some(id) = entry.theirs {
        ctx.theirs.path(id)
    } else {
        "<unknown>".to_owned()
    }
}

// ---------------------------------------------------------------------------
// Dangling references
// ---------------------------------------------------------------------------

/// The referents that a value holds, in order.
pub open spec fn ref_targets(v: ValueModel) -> Seq<u128>
    decreases v,
{
    match v {
        ValueModel::Ref(r) => seq![r],
        ValueModel::Object(r) => seq![r],
        ValueModel::Attributes(list) => list_targets(list),
        ValueModel::Leaf(_) => Seq::empty(),
    }
}

pub open spec fn list_targets(list: Seq<(Text, ValueModel)>) -> Seq<u128>
    decreases list,
{
    if list.len() == 0 {
        Seq::empty()
    } else {
        list_targets(list.drop_last()) + ref_targets(list.last().1)
    }
}

/// Collects the referents that a value holds.
pub fn collect_ref_targets(v: &Value, out: &mut Vec<u128>)
    ensures
        final(out)@ == old(out)@ + ref_targets(v@),
    decreases value::height(v@),
{
    let ghost before = out@;
    match v {
        Value::Ref(r) => {
            out.push(*r);
            assert(out@ =~= before + seq![*r]);
        },
        Value::Object(r) => {
            out.push(*r);
            assert(out@ =~= before + seq![*r]);
        },
        Value::Attributes(list) => {
            proof {
                value::lemma_attributes_view(*v);
            }
            let ghost model = keyed::view_list(list@);
            assert(before + list_targets(model.take(0)) =~= before);
            let mut i: usize = 0;
            while i < list.len()
                invariant
                    i <= list.len(),
                    v@ == ValueModel::Attributes(model),
                    model == keyed::view_list(list@),
                    out@ == before + list_targets(model.take(i as int)),
                decreases list.len() - i,
            {
                proof {
                    value::lemma_height(model, i as int);
                    assert(model[i as int].1 == list@[i as int].1@);
                    assert(model.take(i + 1).drop_last() =~= model.take(i as int));
                    assert(before + list_targets(model.take(i + 1)) =~= before + list_targets(
                        model.take(i as int),
                    ) + ref_targets(model[i as int].1));
                }
                collect_ref_targets(&list[i].1, out);
                i += 1;
            }
            assert(model.take(list.len() as int) =~= model);
        },
        Value::Leaf(_) => {
            assert(before + Seq::<u128>::empty() =~= before);
        },
    }
}

/// Whether a value holds a reference to a row that did not survive.
pub open spec fn dangles(m: Map<u128, usize>, v: ValueModel) -> bool {
    exists|i: int|
        0 <= i < ref_targets(v).len() && m.contains_key(#[trigger] ref_targets(v)[i])
}

/// Whether the dangling references of a property are decided, in which case the
/// property is dropped.
pub open spec fn ref_decided(ctx: Ctx, g: GraphModel, r: int, key: Text) -> bool {
    resolve::resolution(
        ctx.resolutions,
        ConflictKind::RefTarget,
        cycles::graph_path(g, r as usize),
        Some(key),
    ) is Some
}

/// The conflict about a dangling reference.
pub open spec fn dangling_conflict(ctx: Ctx, g: GraphModel, r: int, key: Text, target: usize) -> ConflictModel {
    let node = g[r]->0;
    ConflictModel {
        kind: ConflictKind::RefTarget,
        path: cycles::graph_path(g, r as usize),
        class: node.class,
        name: node.name,
        property: Some(key),
        base: Some(
            "references "@ + dropped_path(ctx, ctx.rows.entries[target as int])
                + ", which was deleted in the merge"@,
        ),
        ours: None,
        theirs: None,
    }
}

/// The conflicts about the first `n` referents of a property.
pub open spec fn target_conflicts(
    ctx: Ctx,
    g: GraphModel,
    m: Map<u128, usize>,
    r: int,
    key: Text,
    targets: Seq<u128>,
    n: int,
    before: Seq<ConflictModel>,
) -> Seq<ConflictModel>
    decreases n,
{
    if n <= 0 {
        before
    } else {
        let so_far = target_conflicts(ctx, g, m, r, key, targets, n - 1, before);
        if m.contains_key(targets[n - 1]) {
            so_far.push(dangling_conflict(ctx, g, r, key, m[targets[n - 1]]))
        } else {
            so_far
        }
    }
}

/// Which of a row's properties are kept: all but those with dangling references
/// that are decided.
pub open spec fn kept_properties(ctx: Ctx, g: GraphModel, m: Map<u128, usize>, r: int) -> Seq<bool> {
    let list = g[r]->0.properties;
    Seq::new(
        list.len(),
        |i: int| !(dangles(m, list[i].1.value) && ref_decided(ctx, g, r, list[i].0)),
    )
}

/// The conflicts about the first `n` properties of a row.
pub open spec fn row_ref_conflicts(
    ctx: Ctx,
    g: GraphModel,
    m: Map<u128, usize>,
    r: int,
    n: int,
    before: Seq<ConflictModel>,
) -> Seq<ConflictModel>
    decreases n,
{
    if n <= 0 {
        before
    } else {
        let so_far = row_ref_conflicts(ctx, g, m, r, n - 1, before);
        let (key, property) = g[r]->0.properties[n - 1];
        if ref_decided(ctx, g, r, key) {
            so_far
        } else {
            let targets = ref_targets(property.value);
            target_conflicts(ctx, g, m, r, key, targets, targets.len() as int, so_far)
        }
    }
}

/// The conflicts about the rows below `n`.
pub open spec fn ref_conflicts(
    ctx: Ctx,
    g: GraphModel,
    m: Map<u128, usize>,
    n: int,
    before: Seq<ConflictModel>,
) -> Seq<ConflictModel>
    decreases n,
{
    if n <= 0 {
        before
    } else {
        let so_far = ref_conflicts(ctx, g, m, n - 1, before);
        if g[n - 1] is Some {
            row_ref_conflicts(ctx, g, m, n - 1, g[n - 1]->0.properties.len() as int, so_far)
        } else {
            so_far
        }
    }
}

pub open spec fn unlinked_row(ctx: Ctx, g: GraphModel, m: Map<u128, usize>, r: int) -> Option<
    NodeModel,
> {
    match g[r] {
        Some(node) => Some(
            NodeModel {
                properties: graph::retained(node.properties, kept_properties(ctx, g, m, r)),
                ..node
            },
        ),
        None => None,
    }
}

/// The graph after the decisions on dangling references.
pub open spec fn unlinked(ctx: Ctx, g: GraphModel) -> GraphModel {
    let m = dropped(ctx, g, g.len() as int);
    Seq::new(g.len(), |r: int| unlinked_row(ctx, g, m, r))
}

/// Reports the dangling references among the referents of a property.
fn report_targets(
    ctx: &MergeCtx,
    graph: &MergedGraph,
    deleted: &HashMap<u128, usize>,
    r: usize,
    key: &str,
    targets: &Vec<u128>,
    conflicts: &mut Vec<Conflict>,
)
    requires
        ctx.wf(),
        graph@.len() == ctx@.rows.entries.len(),
        deleted@ == dropped(ctx@, graph@, graph@.len() as int),
        r < graph@.len(),
        graph@[r as int] is Some,
    ensures
        conflict::conflicts_view(final(conflicts)@) == target_conflicts(
            ctx@,
            graph@,
            deleted@,
            r as int,
            key@,
            targets@,
            targets@.len() as int,
            conflict::conflicts_view(old(conflicts)@),
        ),
{
    let ghost start = conflict::conflicts_view(conflicts@);
    let ghost g = graph@;
    let mut i: usize = 0;
    while i < targets.len()
        invariant
            i <= targets.len(),
            ctx.wf(),
            g == graph@,
            g.len() == ctx@.rows.entries.len(),
            deleted@ == dropped(ctx@, g, g.len() as int),
            r < g.len(),
            g[r as int] is Some,
            conflict::conflicts_view(conflicts@) == target_conflicts(
                ctx@,
                g,
                deleted@,
                r as int,
                key@,
                targets@,
                i as int,
                start,
            ),
        decreases targets.len() - i,
    {
        let _count: usize = graph.rows;
        if let Some(target) = deleted.get(&targets[i]) {
            let target: usize = *target;
            proof {
                lemma_dropped(ctx@, g, g.len() as int, targets@[i as int]);
                context::lemma_entry_wf(ctx@, target as int);
            }
            let entry = ctx.identities.entry(target);
            let mut base = "references ".to_owned();
            base.append(deleted_identity_path(ctx, &entry).as_str());
            base.append(", which was deleted in the merge");
            let (class, name): (String, String) = match graph.get(r) {
                Some(node) => (node.class.clone(), node.name.clone()),
                None => (String::new(), String::new()),
            };
            let ghost so_far = conflict::conflicts_view(conflicts@);
            let conflict = Conflict {
                kind: ConflictKind::RefTarget,
                path: path_in_graph(graph, r),
                class,
                name,
                property: Some(key.to_owned()),
                base: Some(DisplayValue::new(base)),
                ours: None,
                theirs: None,
            };
            let ghost added = conflict@;
            conflicts.push(conflict);
            assert(added == dangling_conflict(ctx@, g, r as int, key@, target));
            assert(conflict::conflicts_view(conflicts@) =~= so_far.push(added));
        }
        i += 1;
    }
}

fn any_dangles(deleted: &HashMap<u128, usize>, targets: &Vec<u128>, Ghost(v): Ghost<ValueModel>) -> (res:
    bool)
    requires
        targets@ == ref_targets(v),
    ensures
        res == dangles(deleted@, v),
{
    let mut i: usize = 0;
    while i < targets.len()
        invariant
            i <= targets.len(),
            targets@ == ref_targets(v),
            forall|k: int| 0 <= k < i ==> !deleted@.contains_key(#[trigger] ref_targets(v)[k]),
        decreases targets.len() - i,
    {
        if deleted.contains_key(&targets[i]) {
            assert(deleted@.contains_key(ref_targets(v)[i as int]));
            return true;
        }
        i += 1;
    }
    false
}

/// Looks through the properties of a row for dangling references.
fn scan_row(
    ctx: &MergeCtx,
    graph: &MergedGraph,
    node: &MergedInstance,
    deleted: &HashMap<u128, usize>,
    r: usize,
    conflicts: &mut Vec<Conflict>,
) -> (res: Vec<bool>)
    requires
        ctx.wf(),
        graph@.len() == ctx@.rows.entries.len(),
        deleted@ == dropped(ctx@, graph@, graph@.len() as int),
        r < graph@.len(),
        graph@[r as int] == Some(node@),
    ensures
        res@ == kept_properties(ctx@, graph@, deleted@, r as int),
        conflict::conflicts_view(final(conflicts)@) == row_ref_conflicts(
            ctx@,
            graph@,
            deleted@,
            r as int,
            graph@[r as int]->0.properties.len() as int,
            conflict::conflicts_view(old(conflicts)@),
        ),
{
    let ghost start = conflict::conflicts_view(conflicts@);
    let ghost g = graph@;
    let ghost list = node@.properties;
    let mut keep: Vec<bool> = Vec::new();
    let mut i: usize = 0;
    while i < node.properties.len()
        invariant
            i <= node.properties.len(),
            ctx.wf(),
            g == graph@,
            g.len() == ctx@.rows.entries.len(),
            deleted@ == dropped(ctx@, g, g.len() as int),
            r < g.len(),
            g[r as int] == Some(node@),
            list == node@.properties,
            keep.len() == i,
            forall|k: int|
                0 <= k < i ==> #[trigger] keep@[k] == !(dangles(deleted@, list[k].1.value)
                    && ref_decided(ctx@, g, r as int, list[k].0)),
            conflict::conflicts_view(conflicts@) == row_ref_conflicts(
                ctx@,
                g,
                deleted@,
                r as int,
                i as int,
                start,
            ),
        decreases node.properties.len() - i,
    {
        let key = node.properties[i].0.as_str();
        let ghost value = node.properties@[i as int].1@.value;
        assert(list[i as int] == (key@, node.properties@[i as int].1@));
        let mut targets: Vec<u128> = Vec::new();
        collect_ref_targets(&node.properties[i].1.value, &mut targets);
        assert(targets@ =~= ref_targets(value));
        let hit = any_dangles(deleted, &targets, Ghost(value));
        if hit {
            let path = path_in_graph(graph, r);
            let decided = ctx.resolutions.lookup(ConflictKind::RefTarget, path.as_str(), Some(key));
            if decided.is_some() {
                keep.push(false);
            } else {
                report_targets(ctx, graph, deleted, r, key, &targets, conflicts);
                keep.push(true);
            }
        } else {
            proof {
                lemma_no_target_conflicts(
                    ctx@,
                    g,
                    deleted@,
                    r as int,
                    key@,
                    value,
                    targets@.len() as int,
                    conflict::conflicts_view(conflicts@),
                );
            }
            keep.push(true);
        }
        i += 1;
    }
    assert(keep@ =~= kept_properties(ctx@, g, deleted@, r as int));
    keep
}

proof fn lemma_no_target_conflicts(
    ctx: Ctx,
    g: GraphModel,
    m: Map<u128, usize>,
    r: int,
    key: Text,
    v: ValueModel,
    n: int,
    before: Seq<ConflictModel>,
)
    requires
        !dangles(m, v),
        0 <= n <= ref_targets(v).len(),
    ensures
        target_conflicts(ctx, g, m, r, key, ref_targets(v), n, before) == before,
    decreases n,
{
    if n > 0 {
        lemma_no_target_conflicts(ctx, g, m, r, key, v, n - 1, before);
        assert(!m.contains_key(ref_targets(v)[n - 1]));
    }
}

/// Drops dangling references that are decided, and reports the others.
pub fn detect_ref_targets(ctx: &MergeCtx, graph: &mut MergedGraph, conflicts: &mut Vec<Conflict>)
    requires
        ctx.wf(),
        old(graph)@.len() == ctx@.rows.entries.len(),
    ensures
        final(graph)@ == unlinked(ctx@, old(graph)@),
        conflict::conflicts_view(final(conflicts)@) == ref_conflicts(
            ctx@,
            old(graph)@,
            dropped(ctx@, old(graph)@, old(graph)@.len() as int),
            old(graph)@.len() as int,
            conflict::conflicts_view(old(conflicts)@),
        ),
{
    let ghost g = graph@;
    let ghost start = conflict::conflicts_view(conflicts@);
    let deleted = dropped_referents(ctx, graph);
    let rows: usize = graph.rows;
    let mut keeps: Vec<Vec<bool>> = Vec::new();
    let mut r: usize = 0;
    while r < rows
        invariant
            r <= rows,
            rows == g.len(),
            ctx.wf(),
            graph@ == g,
            g.len() == ctx@.rows.entries.len(),
            deleted@ == dropped(ctx@, g, g.len() as int),
            keeps.len() == r,
            forall|k: int|
                0 <= k < r && g[k] is Some ==> (#[trigger] keeps@[k])@ == kept_properties(
                    ctx@,
                    g,
                    deleted@,
                    k,
                ),
            conflict::conflicts_view(conflicts@) == ref_conflicts(
                ctx@,
                g,
                deleted@,
                r as int,
                start,
            ),
        decreases rows - r,
    {
        let mut keep: Vec<bool> = Vec::new();
        if let Some(node) = graph.get(r) {
            keep = scan_row(ctx, graph, node, &deleted, r, conflicts);
        }
        keeps.push(keep);
        r += 1;
    }
    r = 0;
    while r < rows
        invariant
            r <= rows,
            rows == g.len(),
            graph@.len() == g.len(),
            deleted@ == dropped(ctx@, g, g.len() as int),
            keeps.len() == rows,
            forall|k: int|
                0 <= k < rows && g[k] is Some ==> (#[trigger] keeps@[k])@ == kept_properties(
                    ctx@,
                    g,
                    deleted@,
                    k,
                ),
            forall|k: int| 0 <= k < r ==> #[trigger] graph@[k] == unlinked_row(ctx@, g, deleted@, k),
            forall|k: int| r <= k < rows ==> #[trigger] graph@[k] == g[k],
        decreases rows - r,
    {
        assert(graph@[r as int] == g[r as int]);
        if graph.get(r).is_some() {
            assert(keeps@[r as int]@ == kept_properties(ctx@, g, deleted@, r as int));
            graph.retain_properties(r, &keeps[r]);
        }
        r += 1;
    }
    assert(graph@ =~= unlinked(ctx@, g));
}

// ---------------------------------------------------------------------------
// Dropped references
// ---------------------------------------------------------------------------

/// The referent of a reference that is not nil, or of an object-valued content.
pub open spec fn single_target(v: ValueModel) -> Option<u128> {
    match v {
        ValueModel::Ref(r) => if r != 0 {
            Some(r)
        } else {
            None
        },
        ValueModel::Object(r) => Some(r),
        _ => None,
    }
}

fn single_ref_target(v: &Value) -> (res: Option<u128>)
    ensures
        res == single_target(v@),
{
    match v {
        Value::Ref(r) => if *r != 0 {
            Some(*r)
        } else {
            None
        },
        Value::Object(r) => Some(*r),
        _ => None,
    }
}

/// Whether a row still has a reference in a property.
pub open spec fn still_refers(node: NodeModel, key: Text) -> bool {
    match keyed::lookup(node.properties, key) {
        Some(p) => single_target(p.value) is Some,
        None => false,
    }
}

/// The remark on a property of the base that referred to a row which did not
/// survive, and that the merged row no longer refers with.
pub open spec fn lost_reference(
    ctx: Ctx,
    g: GraphModel,
    m: Map<u128, usize>,
    r: int,
    property: (Text, ValueModel),
) -> Option<DiagnosticModel> {
    match single_target(property.1) {
        Some(referent) => if m.contains_key(referent) && !still_refers(g[r]->0, property.0) {
            Some(
                diagnostics::dropped_reference_model(
                    cycles::graph_path(g, r as usize),
                    property.0,
                    dropped_path(ctx, ctx.rows.entries[m[referent] as int]),
                ),
            )
        } else {
            None
        },
        None => None,
    }
}

/// The remarks on the first `n` properties that a row has in the base.
pub open spec fn row_lost_references(
    ctx: Ctx,
    g: GraphModel,
    m: Map<u128, usize>,
    r: int,
    n: int,
) -> Seq<DiagnosticModel>
    decreases n,
{
    if n <= 0 {
        Seq::empty()
    } else {
        let so_far = row_lost_references(ctx, g, m, r, n - 1);
        let base = ctx.base[ctx.rows.entries[r].base->0 as int];
        match lost_reference(ctx, g, m, r, base.properties[n - 1]) {
            Some(d) => so_far.push(d),
            None => so_far,
        }
    }
}

/// The remarks on the rows below `n`.
pub open spec fn lost_references(ctx: Ctx, g: GraphModel, m: Map<u128, usize>, n: int) -> Seq<
    DiagnosticModel,
>
    decreases n,
{
    if n <= 0 {
        Seq::empty()
    } else {
        let so_far = lost_references(ctx, g, m, n - 1);
        match (g[n - 1], ctx.rows.entries[n - 1].base) {
            (Some(_), Some(b)) => so_far + row_lost_references(
                ctx,
                g,
                m,
                n - 1,
                ctx.base[b as int].properties.len() as int,
            ),
            _ => so_far,
        }
    }
}

fn refers_still(node: &MergedInstance, key: &str) -> (res: bool)
    ensures
        res == still_refers(node@, key@),
{
    match find(&node.properties, key) {
        Some(p) => single_ref_target(&p.value).is_some(),
        None => false,
    }
}

fn scan_base_row(
    ctx: &MergeCtx,
    graph: &MergedGraph,
    node: &MergedInstance,
    deleted: &HashMap<u128, usize>,
    r: usize,
    base: &SemanticInstance,
    diagnostics: &mut Vec<Diagnostic>,
)
    requires
        ctx.wf(),
        graph@.len() == ctx@.rows.entries.len(),
        deleted@ == dropped(ctx@, graph@, graph@.len() as int),
        r < graph@.len(),
        graph@[r as int] == Some(node@),
        ctx@.rows.entries[r as int].base is Some,
        base@ == ctx@.base[ctx@.rows.entries[r as int].base->0 as int],
    ensures
        diagnostics::diagnostics_view(final(diagnostics)@) == diagnostics::diagnostics_view(
            old(diagnostics)@,
        ) + row_lost_references(
            ctx@,
            graph@,
            deleted@,
            r as int,
            base@.properties.len() as int,
        ),
{
    let ghost start = diagnostics::diagnostics_view(diagnostics@);
    let ghost g = graph@;
    let mut i: usize = 0;
    assert(start + row_lost_references(ctx@, g, deleted@, r as int, 0) =~= start);
    while i < base.properties.len()
        invariant
            i <= base.properties.len(),
            ctx.wf(),
            g == graph@,
            g.len() == ctx@.rows.entries.len(),
            deleted@ == dropped(ctx@, g, g.len() as int),
            r < g.len(),
            g[r as int] == Some(node@),
            ctx@.rows.entries[r as int].base is Some,
            base@ == ctx@.base[ctx@.rows.entries[r as int].base->0 as int],
            diagnostics::diagnostics_view(diagnostics@) == start + row_lost_references(
                ctx@,
                g,
                deleted@,
                r as int,
                i as int,
            ),
        decreases base.properties.len() - i,
    {
        let _count: usize = graph.rows;
        let key = base.properties[i].0.as_str();
        let ghost so_far = row_lost_references(ctx@, g, deleted@, r as int, i as int);
        let ghost now = diagnostics::diagnostics_view(diagnostics@);
        assert(base@.properties[i as int] == (key@, base.properties@[i as int].1@));
        if let Some(referent) = single_ref_target(&base.properties[i].1) {
            if let Some(target) = deleted.get(&referent) {
                let target: usize = *target;
                if !refers_still(node, key) {
                    proof {
                        lemma_dropped(ctx@, g, g.len() as int, referent);
                        context::lemma_entry_wf(ctx@, target as int);
                    }
                    let entry = ctx.identities.entry(target);
                    let remark = dropped_reference_diagnostic(
                        path_in_graph(graph, r),
                        key,
                        deleted_identity_path(ctx, &entry).as_str(),
                    );
                    let ghost added = remark@;
                    diagnostics.push(remark);
                    proof {
                        assert(diagnostics::diagnostics_view(diagnostics@) =~= now.push(added));
                        assert((start + so_far).push(added) =~= start + so_far.push(added));
                    }
                }
            }
        }
        i += 1;
    }
}

/// Remarks on references of the base that the merge lost because their targets
/// did not survive.
pub fn detect_dropped_references(
    ctx: &MergeCtx,
    graph: &MergedGraph,
    diagnostics: &mut Vec<Diagnostic>,
)
    requires
        ctx.wf(),
        graph@.len() == ctx@.rows.entries.len(),
    ensures
        diagnostics::diagnostics_view(final(diagnostics)@) == diagnostics::diagnostics_view(
            old(diagnostics)@,
        ) + lost_references(
            ctx@,
            graph@,
            dropped(ctx@, graph@, graph@.len() as int),
            graph@.len() as int,
        ),
{
    let ghost start = diagnostics::diagnostics_view(diagnostics@);
    let ghost g = graph@;
    let deleted = dropped_referents(ctx, graph);
    let mut r: usize = 0;
    assert(start + lost_references(ctx@, g, deleted@, 0) =~= start);
    while r < graph.rows
        invariant
            r <= graph.rows,
            ctx.wf(),
            g == graph@,
            g.len() == ctx@.rows.entries.len(),
            deleted@ == dropped(ctx@, g, g.len() as int),
            diagnostics::diagnostics_view(diagnostics@) == start + lost_references(
                ctx@,
                g,
                deleted@,
                r as int,
            ),
        decreases graph.rows - r,
    {
        let entry = ctx.identities.entry(r);
        proof {
            context::lemma_entry_wf(ctx@, r as int);
        }
        if let Some(node) = graph.get(r) {
            if let Some(base_id) = entry.base {
                let ghost so_far = lost_references(ctx@, g, deleted@, r as int);
                scan_base_row(
                    ctx,
                    graph,
                    node,
                    &deleted,
                    r,
                    ctx.base.node(base_id),
                    diagnostics,
                );
                proof {
                    let more = row_lost_references(
                        ctx@,
                        g,
                        deleted@,
                        r as int,
                        ctx@.base[base_id as int].properties.len() as int,
                    );
                    assert((start + so_far) + more =~= start + (so_far + more));
                }
            }
        }
        r += 1;
    }
}

} // verus!
