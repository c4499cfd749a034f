//! The merge of one row: whether it survives, and its class, name and parent.

use vstd::prelude::*;

use crate::conflict;
use crate::conflict::{Conflict, ConflictKind, ConflictModel};
use crate::context;
use crate::context::{node_conflict, resolve_or_report, Ctx, MergeCtx};
use crate::diagnostics;
use crate::identity;
use crate::identity::MergeEntry;
use crate::keyed;
use crate::keyed::{find, list_keys, merge_keys};
use crate::resolve;
use crate::resolve::Side;
use crate::semantic;
use crate::semantic::{InstanceModel, SemanticDom, SemanticInstance, ValueSource};
use crate::text;
use crate::text::{same_text, Text};
use crate::three_way;
use crate::three_way::{three_way_side, Sides};

verus! {

// ---------------------------------------------------------------------------
// Changes
// ---------------------------------------------------------------------------

/// The rows of an instance's children, in order.
pub open spec fn child_rows(ctx: Ctx, node: InstanceModel, source: ValueSource) -> Seq<
    Option<usize>,
> {
    node.children.map_values(|c: usize| identity::row_of(ctx.rows, source, c))
}

/// Whether a property differs between an instance of the base and one of a side.
pub open spec fn property_differs(
    ctx: Ctx,
    b: InstanceModel,
    s: InstanceModel,
    source: ValueSource,
    key: Text,
) -> bool {
    !ctx.option_equal(
        keyed::lookup(b.properties, key),
        ValueSource::Base,
        keyed::lookup(s.properties, key),
        source,
    )
}

/// Whether a side changed an instance of the base: its class, its name, a
/// property, its parent, or its children or their order.
pub open spec fn changed(ctx: Ctx, b: InstanceModel, s: InstanceModel, source: ValueSource) -> bool {
    ||| b.class != s.class
    ||| b.name != s.name
    ||| exists|key: Text| #[trigger] property_differs(ctx, b, s, source, key)
    ||| ctx.parent_row(Some(b), ValueSource::Base) != ctx.parent_row(Some(s), source)
    ||| child_rows(ctx, b, ValueSource::Base) != child_rows(ctx, s, source)
}

fn same_children(
    ctx: &MergeCtx,
    b: &SemanticInstance,
    s: &SemanticInstance,
    source: ValueSource,
) -> (res: bool)
    ensures
        res == (child_rows(ctx@, b@, ValueSource::Base) == child_rows(ctx@, s@, source)),
{
    let ghost x = child_rows(ctx@, b@, ValueSource::Base);
    let ghost y = child_rows(ctx@, s@, source);
    if b.children.len() != s.children.len() {
        assert(x.len() != y.len());
        return false;
    }
    let mut i: usize = 0;
    while i < b.children.len()
        invariant
            i <= b.children.len(),
            b.children.len() == s.children.len(),
            x == child_rows(ctx@, b@, ValueSource::Base),
            y == child_rows(ctx@, s@, source),
            forall|k: int| 0 <= k < i ==> x[k] == y[k],
        decreases b.children.len() - i,
    {
        let own = ctx.identities.lookup(ValueSource::Base, b.children[i]);
        let other = ctx.identities.lookup(source, s.children[i]);
        assert(x[i as int] == own && y[i as int] == other);
        if own != other {
            return false;
        }
        i += 1;
    }
    assert(x =~= y);
    true
}

fn same_properties(
    ctx: &MergeCtx,
    b: &SemanticInstance,
    s: &SemanticInstance,
    source: ValueSource,
) -> (res: bool)
    requires
        ctx.wf(),
    ensures
        res == !(exists|key: Text| #[trigger] property_differs(ctx@, b@, s@, source, key)),
{
    let keys = merge_keys(&list_keys(&b.properties), &list_keys(&s.properties));
    let ghost all = text::strings_view(keys@);
    let mut i: usize = 0;
    while i < keys.len()
        invariant
            i <= keys.len(),
            ctx.wf(),
            all == text::strings_view(keys@),
            all == keyed::key_union(
                keyed::keys_of(b@.properties),
                keyed::keys_of(s@.properties),
            ),
            forall|k: int|
                0 <= k < i ==> !property_differs(ctx@, b@, s@, source, #[trigger] all[k]),
        decreases keys.len() - i,
    {
        let key = keys[i].as_str();
        assert(all[i as int] == key@);
        let own = find(&b.properties, key);
        let other = find(&s.properties, key);
        if !ctx.same_option(own, ValueSource::Base, other, source) {
            assert(property_differs(ctx@, b@, s@, source, key@));
            return false;
        }
        i += 1;
    }
    proof {
        assert forall|key: Text| !(#[trigger] property_differs(ctx@, b@, s@, source, key)) by {
            let bp = b@.properties;
            let sp = s@.properties;
            keyed::lemma_key_union_contains(keyed::keys_of(bp), keyed::keys_of(sp), key);
            if all.contains(key) {
                let k = all.index_of(key);
                assert(all[k] == key);
            } else {
                if keyed::lookup(bp, key) is Some {
                    let k = keyed::lemma_lookup_some(bp, key);
                    assert(keyed::keys_of(bp)[k] == key);
                }
                if keyed::lookup(sp, key) is Some {
                    let k = keyed::lemma_lookup_some(sp, key);
                    assert(keyed::keys_of(sp)[k] == key);
                }
            }
        }
    }
    true
}

/// Tells whether a side changed an instance of the base. What is of no side counts as
/// changed.
pub fn side_node_changed_from_base(
    ctx: &MergeCtx,
    b: &SemanticInstance,
    s: &SemanticInstance,
    source: ValueSource,
) -> (res: bool)
    requires
        ctx.wf(),
    ensures
        res == (!(source is Ours || source is Theirs) || changed(ctx@, b@, s@, source)),
{
    match source {
        ValueSource::Ours | ValueSource::Theirs => {},
        _ => {
            return true;
        },
    }
    if !same_text(b.class.as_str(), s.class.as_str()) || !same_text(
        b.name.as_str(),
        s.name.as_str(),
    ) {
        return true;
    }
    if !same_properties(ctx, b, s, source) {
        return true;
    }
    if ctx.parent_of(Some(b), ValueSource::Base) != ctx.parent_of(Some(s), source) {
        return true;
    }
    !same_children(ctx, b, s, source)
}

// ---------------------------------------------------------------------------
// Deletion
// ---------------------------------------------------------------------------

/// What becomes of a row before its fields are merged.
#[derive(Clone, Copy, PartialEq, Eq, Structural)]
pub enum NodeDecision {
    /// The fields are merged.
    Merge,
    /// The row is dropped.
    Drop,
    /// The row is taken from one side, as a conflict was decided.
    TakeSide(Side),
}

/// How the sides of a deletion are shown in a conflict.
pub open spec fn deletion_labels(deleted_by_ours: bool) -> Sides<Option<Text>> {
    Sides {
        base: Some("present in base"@),
        ours: Some(
            if deleted_by_ours {
                "deleted"@
            } else {
                "modified"@
            },
        ),
        theirs: Some(
            if deleted_by_ours {
                "modified"@
            } else {
                "deleted"@
            },
        ),
    }
}

/// Whether a row was deleted by one side and changed by the other.
pub open spec fn delete_modify(ctx: Ctx, entry: MergeEntry) -> bool {
    match (entry.base, entry.ours, entry.theirs) {
        (Some(b), None, Some(t)) => changed(
            ctx,
            ctx.base[b as int],
            ctx.theirs[t as int],
            ValueSource::Theirs,
        ),
        (Some(b), Some(o), None) => changed(
            ctx,
            ctx.base[b as int],
            ctx.ours[o as int],
            ValueSource::Ours,
        ),
        _ => false,
    }
}

/// What becomes of a row: added ones and those that both sides kept are merged;
/// deleted ones are dropped; one that was deleted and changed is in conflict,
/// which may be decided for a side that has it.
pub open spec fn decision(ctx: Ctx, entry: MergeEntry) -> NodeDecision {
    if entry.base is None || (entry.ours is Some && entry.theirs is Some) {
        NodeDecision::Merge
    } else if delete_modify(ctx, entry) {
        match resolve::resolution(
            ctx.resolutions,
            ConflictKind::DeleteModify,
            semantic::dom_path(ctx.base, entry.base->0 as int),
            None,
        ) {
            Some(side) => if ctx.nodes(entry).of(side) is Some {
                NodeDecision::TakeSide(side)
            } else {
                NodeDecision::Drop
            },
            None => NodeDecision::Drop,
        }
    } else {
        NodeDecision::Drop
    }
}

/// The conflicts after the decision on a row.
pub open spec fn decision_conflicts(ctx: Ctx, entry: MergeEntry, before: Seq<ConflictModel>) -> Seq<
    ConflictModel,
> {
    if delete_modify(ctx, entry) {
        context::reported(
            ctx.resolutions,
            before,
            ctx.base,
            entry.base->0,
            ConflictKind::DeleteModify,
            None,
            deletion_labels(entry.ours is None),
        )
    } else {
        before
    }
}

/// Decides a deletion that meets a change, or reports it.
fn resolve_delete_modify(
    ctx: &MergeCtx,
    entry: &MergeEntry,
    base_id: usize,
    deleted_by_ours: bool,
    conflicts: &mut Vec<Conflict>,
) -> (res: NodeDecision)
    requires
        ctx.wf(),
        context::entry_wf(ctx@, *entry),
        entry.base == Some(base_id),
        delete_modify(ctx@, *entry),
        deleted_by_ours == (entry.ours is None),
    ensures
        res == decision(ctx@, *entry),
        conflict::conflicts_view(final(conflicts)@) == decision_conflicts(
            ctx@,
            *entry,
            conflict::conflicts_view(old(conflicts)@),
        ),
{
    let (ours_label, theirs_label): (&str, &str) = if deleted_by_ours {
        ("deleted", "modified")
    } else {
        ("modified", "deleted")
    };
    let labels = Sides {
        base: Some("present in base".to_owned()),
        ours: Some(ours_label.to_owned()),
        theirs: Some(theirs_label.to_owned()),
    };
    let decided = resolve_or_report(
        ConflictKind::DeleteModify,
        ctx.base,
        base_id,
        None,
        labels,
        ctx.resolutions,
        conflicts,
    );
    match decided {
        Some(side) => {
            let nodes = ctx.nodes(entry);
            let chosen = match side {
                Side::Base => nodes.base,
                Side::Ours => nodes.ours,
                Side::Theirs => nodes.theirs,
            };
            if chosen.is_some() {
                NodeDecision::TakeSide(side)
            } else {
                NodeDecision::Drop
            }
        },
        None => NodeDecision::Drop,
    }
}

/// Decides what becomes of a row.
pub fn deletion_decision(ctx: &MergeCtx, entry: &MergeEntry, conflicts: &mut Vec<Conflict>) -> (res:
    NodeDecision)
    requires
        ctx.wf(),
        context::entry_wf(ctx@, *entry),
    ensures
        res == decision(ctx@, *entry),
        conflict::conflicts_view(final(conflicts)@) == decision_conflicts(
            ctx@,
            *entry,
            conflict::conflicts_view(old(conflicts)@),
        ),
{
    let base_id: usize = match entry.base {
        Some(id) => id,
        None => {
            return NodeDecision::Merge;
        },
    };
    match (entry.ours, entry.theirs) {
        (None, None) => NodeDecision::Drop,
        (None, Some(theirs_id)) => {
            if side_node_changed_from_base(
                ctx,
                ctx.base.node(base_id),
                ctx.theirs.node(theirs_id),
                ValueSource::Theirs,
            ) {
                resolve_delete_modify(ctx, entry, base_id, true, conflicts)
            } else {
                NodeDecision::Drop
            }
        },
        (Some(ours_id), None) => {
            if side_node_changed_from_base(
                ctx,
                ctx.base.node(base_id),
                ctx.ours.node(ours_id),
                ValueSource::Ours,
            ) {
                resolve_delete_modify(ctx, entry, base_id, false, conflicts)
            } else {
                NodeDecision::Drop
            }
        },
        (Some(_), Some(_)) => NodeDecision::Merge,
    }
}

// ---------------------------------------------------------------------------
// Class, name and parent
// ---------------------------------------------------------------------------

pub open spec fn class_of(node: Option<InstanceModel>) -> Option<Text> {
    match node {
        Some(node) => Some(node.class),
        None => None,
    }
}

pub open spec fn name_of(node: Option<InstanceModel>) -> Option<Text> {
    match node {
        Some(node) => Some(node.name),
        None => None,
    }
}

pub open spec fn classes_of(ctx: Ctx, entry: MergeEntry) -> Sides<Option<Text>> {
    let nodes = ctx.nodes(entry);
    Sides { base: class_of(nodes.base), ours: class_of(nodes.ours), theirs: class_of(nodes.theirs) }
}

pub open spec fn names_of(ctx: Ctx, entry: MergeEntry) -> Sides<Option<Text>> {
    let nodes = ctx.nodes(entry);
    Sides { base: name_of(nodes.base), ours: name_of(nodes.ours), theirs: name_of(nodes.theirs) }
}

/// The text that the three-way rule takes, absent where it takes none.
pub open spec fn agreed(texts: Sides<Option<Text>>) -> Option<Text> {
    match three_way::three_way_of(texts) {
        Some(side) => texts.of(side),
        None => None,
    }
}

/// The class or name of a row: what the three-way rule takes, else that of the
/// side that the conflict is decided for.
pub open spec fn merged_text(
    ctx: Ctx,
    entry: MergeEntry,
    property: Text,
    texts: Sides<Option<Text>>,
) -> Option<Text> {
    match agreed(texts) {
        Some(t) => Some(t),
        None => match resolve::resolution(
            ctx.resolutions,
            ConflictKind::InstanceIdentity,
            ctx.subject_path(entry),
            Some(property),
        ) {
            Some(side) => texts.of(side),
            None => None,
        },
    }
}

/// The conflicts after the merge of a class or name.
pub open spec fn text_conflicts(
    ctx: Ctx,
    entry: MergeEntry,
    property: Text,
    texts: Sides<Option<Text>>,
    before: Seq<ConflictModel>,
) -> Seq<ConflictModel> {
    if merged_text(ctx, entry, property, texts) is Some {
        before
    } else {
        before.push(
            context::conflict_at(
                ctx.subject(entry).0,
                ctx.subject(entry).1,
                ConflictKind::InstanceIdentity,
                Some(property),
                texts,
            ),
        )
    }
}

fn same_optional(a: &Option<String>, b: &Option<String>) -> (res: bool)
    ensures
        res == (diagnostics::option_text(*a) == diagnostics::option_text(*b)),
{
    match (a, b) {
        (Some(a), Some(b)) => same_text(a.as_str(), b.as_str()),
        (None, None) => true,
        _ => false,
    }
}

fn copy_optional(a: &Option<String>) -> (res: Option<String>)
    ensures
        diagnostics::option_text(res) == diagnostics::option_text(*a),
{
    match a {
        Some(a) => Some(a.clone()),
        None => None,
    }
}

fn copy_side(texts: &Sides<Option<String>>, side: Side) -> (res: Option<String>)
    ensures
        diagnostics::option_text(res) == context::labels_view(*texts).of(side),
{
    match side {
        Side::Base => copy_optional(&texts.base),
        Side::Ours => copy_optional(&texts.ours),
        Side::Theirs => copy_optional(&texts.theirs),
    }
}

/// Merges the class or the name of a row.
fn merge_text(
    ctx: &MergeCtx,
    entry: &MergeEntry,
    property: &str,
    texts: Sides<Option<String>>,
    conflicts: &mut Vec<Conflict>,
) -> (res: Option<String>)
    requires
        ctx.wf(),
        context::entry_wf(ctx@, *entry),
    ensures
        diagnostics::option_text(res) == merged_text(
            ctx@,
            *entry,
            property@,
            context::labels_view(texts),
        ),
        conflict::conflicts_view(final(conflicts)@) == text_conflicts(
            ctx@,
            *entry,
            property@,
            context::labels_view(texts),
            conflict::conflicts_view(old(conflicts)@),
        ),
{
    let ghost model = context::labels_view(texts);
    let side = three_way_side(
        same_optional(&texts.ours, &texts.base),
        same_optional(&texts.theirs, &texts.base),
        same_optional(&texts.ours, &texts.theirs),
    );
    assert(side == three_way::three_way_of(model));
    if let Some(side) = side {
        let chosen = copy_side(&texts, side);
        if chosen.is_some() {
            return chosen;
        }
    }
    let (dom, id): (&SemanticDom, usize) = ctx.conflict_subject(entry);
    let path = dom.path(id);
    let decided = ctx.resolutions.lookup(
        ConflictKind::InstanceIdentity,
        path.as_str(),
        Some(property),
    );
    if let Some(side) = decided {
        let chosen = copy_side(&texts, side);
        if chosen.is_some() {
            return chosen;
        }
    }
    let ghost before = conflict::conflicts_view(conflicts@);
    let conflict = node_conflict(
        ConflictKind::InstanceIdentity,
        dom,
        id,
        Some(property),
        texts,
    );
    let ghost added = conflict@;
    conflicts.push(conflict);
    assert(conflict::conflicts_view(conflicts@) =~= before.push(added));
    None
}

fn node_class(node: Option<&SemanticInstance>) -> (res: Option<String>)
    ensures
        diagnostics::option_text(res) == class_of(context::instance_view(node)),
{
    match node {
        Some(node) => Some(node.class.clone()),
        None => None,
    }
}

fn node_name(node: Option<&SemanticInstance>) -> (res: Option<String>)
    ensures
        diagnostics::option_text(res) == name_of(context::instance_view(node)),
{
    match node {
        Some(node) => Some(node.name.clone()),
        None => None,
    }
}

/// Merges the class of a row.
pub fn merge_class(ctx: &MergeCtx, entry: &MergeEntry, conflicts: &mut Vec<Conflict>) -> (res: Option<
    String,
>)
    requires
        ctx.wf(),
        context::entry_wf(ctx@, *entry),
    ensures
        diagnostics::option_text(res) == merged_text(
            ctx@,
            *entry,
            "ClassName"@,
            classes_of(ctx@, *entry),
        ),
        conflict::conflicts_view(final(conflicts)@) == text_conflicts(
            ctx@,
            *entry,
            "ClassName"@,
            classes_of(ctx@, *entry),
            conflict::conflicts_view(old(conflicts)@),
        ),
{
    let nodes = ctx.nodes(entry);
    let classes = Sides {
        base: node_class(nodes.base),
        ours: node_class(nodes.ours),
        theirs: node_class(nodes.theirs),
    };
    assert(context::labels_view(classes) == classes_of(ctx@, *entry));
    merge_text(ctx, entry, "ClassName", classes, conflicts)
}

/// Merges the name of a row.
pub fn merge_name(ctx: &MergeCtx, entry: &MergeEntry, conflicts: &mut Vec<Conflict>) -> (res: Option<
    String,
>)
    requires
        ctx.wf(),
        context::entry_wf(ctx@, *entry),
    ensures
        diagnostics::option_text(res) == merged_text(
            ctx@,
            *entry,
            "Name"@,
            names_of(ctx@, *entry),
        ),
        conflict::conflicts_view(final(conflicts)@) == text_conflicts(
            ctx@,
            *entry,
            "Name"@,
            names_of(ctx@, *entry),
            conflict::conflicts_view(old(conflicts)@),
        ),
{
    let nodes = ctx.nodes(entry);
    let names = Sides {
        base: node_name(nodes.base),
        ours: node_name(nodes.ours),
        theirs: node_name(nodes.theirs),
    };
    assert(context::labels_view(names) == names_of(ctx@, *entry));
    merge_text(ctx, entry, "Name", names, conflicts)
}

pub open spec fn row_label(ctx: Ctx, row: Option<usize>) -> Option<Text> {
    match row {
        Some(r) => Some(ctx.subject_path(ctx.rows.entries[r as int])),
        None => None,
    }
}

/// How the parents of a row are shown in a conflict: by their paths.
pub open spec fn parent_labels(ctx: Ctx, entry: MergeEntry) -> Sides<Option<Text>> {
    let parents = ctx.parents(entry);
    Sides {
        base: row_label(ctx, parents.base),
        ours: row_label(ctx, parents.ours),
        theirs: row_label(ctx, parents.theirs),
    }
}

/// The parent of a row: what the three-way rule takes, else that of the side that
/// the conflict is decided for, else that of the base.
pub open spec fn merged_parent(ctx: Ctx, entry: MergeEntry) -> Option<usize> {
    let parents = ctx.parents(entry);
    match three_way::three_way_of(parents) {
        Some(side) => parents.of(side),
        None => match resolve::resolution(
            ctx.resolutions,
            ConflictKind::ParentMove,
            ctx.subject_path(entry),
            None,
        ) {
            Some(side) => parents.of(side),
            None => parents.base,
        },
    }
}

/// The conflicts after the merge of the parent of a row.
pub open spec fn parent_conflicts(ctx: Ctx, entry: MergeEntry, before: Seq<ConflictModel>) -> Seq<
    ConflictModel,
> {
    if three_way::three_way_of(ctx.parents(entry)) is Some {
        before
    } else {
        context::reported(
            ctx.resolutions,
            before,
            ctx.subject(entry).0,
            ctx.subject(entry).1,
            ConflictKind::ParentMove,
            None,
            parent_labels(ctx, entry),
        )
    }
}

fn show_row(ctx: &MergeCtx, row: Option<usize>) -> (res: Option<String>)
    requires
        ctx.wf(),
        row matches Some(r) ==> r < ctx@.rows.entries.len(),
    ensures
        diagnostics::option_text(res) == row_label(ctx@, row),
{
    match row {
        Some(r) => Some(ctx.parent_label(r)),
        None => None,
    }
}

/// Shows the parents of a row.
pub fn show_parents(ctx: &MergeCtx, entry: &MergeEntry) -> (res: Sides<Option<String>>)
    requires
        ctx.wf(),
        context::entry_wf(ctx@, *entry),
    ensures
        context::labels_view(res) == parent_labels(ctx@, *entry),
{
    proof {
        context::lemma_parents(ctx@, *entry);
    }
    let parents = ctx.side_parents(entry);
    Sides {
        base: show_row(ctx, parents.base),
        ours: show_row(ctx, parents.ours),
        theirs: show_row(ctx, parents.theirs),
    }
}

/// Merges the parent of a row.
pub fn merge_parent(ctx: &MergeCtx, entry: &MergeEntry, conflicts: &mut Vec<Conflict>) -> (res: Option<
    usize,
>)
    requires
        ctx.wf(),
        context::entry_wf(ctx@, *entry),
    ensures
        res == merged_parent(ctx@, *entry),
        conflict::conflicts_view(final(conflicts)@) == parent_conflicts(
            ctx@,
            *entry,
            conflict::conflicts_view(old(conflicts)@),
        ),
{
    let parents = ctx.side_parents(entry);
    let side = three_way_side(
        parents.ours == parents.base,
        parents.theirs == parents.base,
        parents.ours == parents.theirs,
    );
    match side {
        Some(side) => parents.pick(side),
        None => {
            let labels = show_parents(ctx, entry);
            let (dom, id): (&SemanticDom, usize) = ctx.conflict_subject(entry);
            let decided = resolve_or_report(
                ConflictKind::ParentMove,
                dom,
                id,
                None,
                labels,
                ctx.resolutions,
                conflicts,
            );
            match decided {
                Some(side) => parents.pick(side),
                None => parents.base,
            }
        },
    }
}

} // verus!
