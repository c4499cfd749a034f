//! The merged graph: the surviving rows with their merged fields.

use std::collections::HashMap;

use indexmap::IndexMap;
use vstd::prelude::*;

use crate::conflict;
use crate::conflict::{Conflict, ConflictModel};
use crate::context;
use crate::context::{Ctx, MergeCtx};
use crate::dom::random_referent;
use crate::identity::MergeEntry;
use crate::keyed;
use crate::lists;
use crate::properties;
use crate::properties::{merge_properties, MergedProperty, PropertyModel};
use crate::resolve::Side;
use crate::rows;
use crate::rows::{deletion_decision, merge_class, merge_name, merge_parent, NodeDecision};
use crate::semantic::{InstanceModel, SemanticInstance, ValueSource};
use crate::text::{same_text, Text};
use crate::three_way;
use crate::three_way::side_source;
use crate::value::{copy_value, ValueModel};

verus! {

broadcast use vstd::std_specs::hash::group_hash_axioms;

#[verifier::external_type_specification]
#[verifier::external_body]
#[verifier::reject_recursive_types(K)]
#[verifier::reject_recursive_types(V)]
#[verifier::reject_recursive_types(S)]
pub struct ExIndexMap<K, V, S>(indexmap::IndexMap<K, V, S>);

/// A surviving row. Its parent and its children are rows.
pub struct MergedInstance {
    pub class: String,
    pub name: String,
    pub parent: Option<usize>,
    pub children: Vec<usize>,
    pub properties: Vec<(String, MergedProperty)>,
    pub referent: u128,
}

/// The mathematical counterpart of [`MergedInstance`].
#[verifier::ext_equal]
pub ghost struct NodeModel {
    pub class: Text,
    pub name: Text,
    pub parent: Option<usize>,
    pub children: Seq<usize>,
    pub properties: Seq<(Text, PropertyModel)>,
    pub referent: u128,
}

impl View for MergedInstance {
    type V = NodeModel;

    open spec fn view(&self) -> NodeModel {
        NodeModel {
            class: self.class@,
            name: self.name@,
            parent: self.parent,
            children: self.children@,
            properties: keyed::view_list(self.properties@),
            referent: self.referent,
        }
    }
}

/// The surviving rows of a map.
pub uninterp spec fn graph_nodes(nodes: IndexMap<usize, MergedInstance>) -> Map<
    usize,
    MergedInstance,
>;

/// An empty map.
///
/// Trusted: `IndexMap::new` holds nothing.
#[verifier::external_body]
fn new_nodes() -> (res: IndexMap<usize, MergedInstance>)
    ensures
        graph_nodes(res).dom() == Set::<usize>::empty(),
{
    IndexMap::new()
}

/// Adds a row, or replaces it.
///
/// Trusted: `IndexMap::insert` leaves every other entry as it is.
#[verifier::external_body]
fn insert_node(nodes: &mut IndexMap<usize, MergedInstance>, row: usize, instance: MergedInstance)
    ensures
        graph_nodes(*final(nodes)) == graph_nodes(*old(nodes)).insert(row, instance),
{
    nodes.insert(row, instance);
}

/// Finds a row.
///
/// Trusted: `IndexMap::get` finds the entry of the key.
#[verifier::external_body]
fn get_node(nodes: &IndexMap<usize, MergedInstance>, row: usize) -> (res: Option<&MergedInstance>)
    ensures
        match res {
            Some(instance) => graph_nodes(*nodes).contains_key(row) && graph_nodes(*nodes)[row]
                == *instance,
            None => !graph_nodes(*nodes).contains_key(row),
        },
{
    nodes.get(&row)
}

/// Lends a row out for a change.
///
/// Trusted: `IndexMap::get_mut` lends the entry of the key and leaves every other
/// entry as it is.
#[verifier::external_body]
fn lend_node(nodes: &mut IndexMap<usize, MergedInstance>, row: usize) -> (res: &mut MergedInstance)
    requires
        graph_nodes(*old(nodes)).contains_key(row),
    ensures
        *res == graph_nodes(*old(nodes))[row],
        graph_nodes(*final(nodes)) == graph_nodes(*old(nodes)).insert(row, *final(res)),
{
    nodes.get_mut(&row).unwrap()
}

/// The surviving rows among `rows` rows. The root is the first row.
pub struct MergedGraph {
    pub rows: usize,
    pub nodes: IndexMap<usize, MergedInstance>,
}

/// A graph: what became of every row.
pub type GraphModel = Seq<Option<NodeModel>>;

impl View for MergedGraph {
    type V = GraphModel;

    open spec fn view(&self) -> GraphModel {
        Seq::new(
            self.rows as nat,
            |i: int|
                if graph_nodes(self.nodes).contains_key(i as usize) {
                    Some(graph_nodes(self.nodes)[i as usize]@)
                } else {
                    None
                },
        )
    }
}

impl MergedGraph {
    /// A graph of that many rows, none of which survives yet.
    pub fn new(rows: usize) -> (res: Self)
        ensures
            res@.len() == rows,
            forall|r: int| 0 <= r < rows ==> #[trigger] res@[r] is None,
    {
        MergedGraph { rows, nodes: new_nodes() }
    }

    /// Adds a row, or replaces it.
    pub fn put(&mut self, row: usize, instance: MergedInstance)
        requires
            row < old(self)@.len(),
        ensures
            final(self)@ == old(self)@.update(row as int, Some(instance@)),
    {
        let ghost before = self@;
        insert_node(&mut self.nodes, row, instance);
        assert(self@ =~= before.update(row as int, Some(instance@)));
    }

    /// Finds a row.
    pub fn get(&self, row: usize) -> (res: Option<&MergedInstance>)
        requires
            row < self@.len(),
        ensures
            match res {
                Some(instance) => self@[row as int] == Some(instance@),
                None => self@[row as int] is None,
            },
    {
        get_node(&self.nodes, row)
    }

    /// Gives a row another parent.
    pub fn set_parent(&mut self, row: usize, parent: Option<usize>)
        requires
            row < old(self)@.len(),
            old(self)@[row as int] is Some,
        ensures
            final(self)@ == old(self)@.update(
                row as int,
                Some((NodeModel { parent, ..old(self)@[row as int]->0 })),
            ),
    {
        let ghost before = self@;
        let ghost node = graph_nodes(self.nodes)[row];
        let instance = lend_node(&mut self.nodes, row);
        instance.parent = parent;
        assert(self@ =~= before.update(
            row as int,
            Some((NodeModel { parent, ..before[row as int]->0 })),
        ));
    }

    /// Gives a row other children.
    pub fn set_children(&mut self, row: usize, children: Vec<usize>)
        requires
            row < old(self)@.len(),
            old(self)@[row as int] is Some,
        ensures
            final(self)@ == old(self)@.update(
                row as int,
                Some((NodeModel { children: children@, ..old(self)@[row as int]->0 })),
            ),
    {
        let ghost before = self@;
        let ghost ids = children@;
        let instance = lend_node(&mut self.nodes, row);
        instance.children = children;
        assert(self@ =~= before.update(
            row as int,
            Some((NodeModel { children: ids, ..before[row as int]->0 })),
        ));
    }

    /// Keeps only the marked properties of a row.
    pub fn retain_properties(&mut self, row: usize, keep: &Vec<bool>)
        requires
            row < old(self)@.len(),
            old(self)@[row as int] is Some,
            keep.len() == old(self)@[row as int]->0.properties.len(),
        ensures
            final(self)@ == old(self)@.update(
                row as int,
                Some(
                    (NodeModel {
                        properties: retained(old(self)@[row as int]->0.properties, keep@),
                        ..old(self)@[row as int]->0
                    }),
                ),
            ),
    {
        let ghost before = self@;
        let ghost model = before[row as int]->0;
        let instance = lend_node(&mut self.nodes, row);
        retain_marked(&mut instance.properties, keep);
        assert(self@ =~= before.update(
            row as int,
            Some((NodeModel { properties: retained(model.properties, keep@), ..model })),
        ));
    }

    /// Takes a property away from a row.
    pub fn remove_property(&mut self, row: usize, key: &str)
        requires
            row < old(self)@.len(),
            old(self)@[row as int] is Some,
        ensures
            final(self)@ == old(self)@.update(
                row as int,
                Some(without_property(old(self)@[row as int]->0, key@)),
            ),
    {
        let ghost before = self@;
        let ghost model = before[row as int]->0;
        let instance = lend_node(&mut self.nodes, row);
        drop_named(&mut instance.properties, key);
        assert(self@ =~= before.update(row as int, Some(without_property(model, key@))));
    }
}

/// The entries that are marked to be kept.
pub open spec fn retained(list: Seq<(Text, PropertyModel)>, keep: Seq<bool>) -> Seq<
    (Text, PropertyModel),
>
    decreases list.len(),
{
    if list.len() == 0 {
        Seq::empty()
    } else if keep[list.len() - 1] {
        retained(list.drop_last(), keep).push(list.last())
    } else {
        retained(list.drop_last(), keep)
    }
}

/// Takes the entries away that are not marked to be kept.
fn retain_marked(list: &mut Vec<(String, MergedProperty)>, keep: &Vec<bool>)
    requires
        keep.len() == old(list).len(),
    ensures
        keyed::view_list(final(list)@) == retained(keyed::view_list(old(list)@), keep@),
{
    let ghost whole = keyed::view_list(list@);
    let mut done: usize = 0;
    let mut i: usize = 0;
    assert(keyed::view_list(list@) =~= retained(whole.take(0), keep@) + whole.skip(0));
    while done < keep.len()
        invariant
            i <= done <= keep.len(),
            keep.len() == whole.len(),
            i == retained(whole.take(done as int), keep@).len(),
            keyed::view_list(list@) == retained(whole.take(done as int), keep@) + whole.skip(
                done as int,
            ),
        decreases keep.len() - done,
    {
        let ghost view = keyed::view_list(list@);
        proof {
            assert(view.len() == i + (whole.len() - done));
            assert(whole.take(done + 1).drop_last() =~= whole.take(done as int));
            assert(whole.skip(done as int) =~= seq![whole[done as int]] + whole.skip(done + 1));
        }
        if keep[done] {
            assert(view =~= retained(whole.take(done + 1), keep@) + whole.skip(done + 1));
            i += 1;
        } else {
            list.remove(i);
            proof {
                assert(keyed::view_list(list@) =~= view.remove(i as int));
                assert(view.remove(i as int) =~= retained(whole.take(done as int), keep@)
                    + whole.skip(done + 1));
            }
        }
        done += 1;
    }
    assert(whole.take(whole.len() as int) =~= whole);
    assert(keyed::view_list(list@) =~= retained(whole, keep@));
}

/// Whether an entry has another name.
pub open spec fn has_other_name(key: Text) -> spec_fn((Text, PropertyModel)) -> bool {
    |p: (Text, PropertyModel)| p.0 != key
}

/// A row without one of its properties.
pub open spec fn without_property(node: NodeModel, key: Text) -> NodeModel {
    NodeModel { properties: node.properties.filter(has_other_name(key)), ..node }
}

/// Takes the entries of that name away.
fn drop_named(list: &mut Vec<(String, MergedProperty)>, key: &str)
    ensures
        keyed::view_list(final(list)@) == keyed::view_list(old(list)@).filter(has_other_name(key@)),
{
    let ghost pred = has_other_name(key@);
    let ghost whole = keyed::view_list(list@);
    let ghost mut done: int = 0;
    let mut i: usize = 0;
    proof {
        lists::lemma_filter_none(whole, pred);
        assert(keyed::view_list(list@) =~= whole.take(0).filter(pred) + whole.skip(0));
    }
    while i < list.len()
        invariant
            0 <= done <= whole.len(),
            pred == has_other_name(key@),
            i == whole.take(done).filter(pred).len(),
            keyed::view_list(list@) == whole.take(done).filter(pred) + whole.skip(done),
        decreases list.len() - i,
    {
        let ghost view = keyed::view_list(list@);
        proof {
            assert(view.len() == i + (whole.len() - done));
            assert(view[i as int] == whole.skip(done)[0]);
            assert(whole.skip(done)[0] == whole[done]);
            assert(view[i as int].0 == list@[i as int].0@);
            lists::lemma_filter_step(whole, pred, done);
            assert(whole.skip(done) =~= seq![whole[done]] + whole.skip(done + 1));
        }
        if same_text(list[i].0.as_str(), key) {
            list.remove(i);
            proof {
                assert(keyed::view_list(list@) =~= view.remove(i as int));
                assert(view.remove(i as int) =~= whole.take(done).filter(pred) + whole.skip(
                    done + 1,
                ));
                done = done + 1;
            }
        } else {
            proof {
                assert(view =~= whole.take(done + 1).filter(pred) + whole.skip(done + 1));
                done = done + 1;
            }
            i += 1;
        }
    }
    proof {
        assert(whole.skip(done).len() == 0);
        assert(done == whole.len());
        lists::lemma_filter_all(whole, pred);
        assert(keyed::view_list(list@) =~= whole.filter(pred));
    }
}

// ---------------------------------------------------------------------------
// Merging every row
// ---------------------------------------------------------------------------

/// The fields of a surviving row.
#[verifier::ext_equal]
pub ghost struct Draft {
    pub class: Text,
    pub name: Text,
    pub parent: Option<usize>,
    pub properties: Seq<(Text, PropertyModel)>,
}

/// The properties of an instance, as they stand on its side.
pub open spec fn side_properties(node: InstanceModel, source: ValueSource) -> Seq<
    (Text, PropertyModel),
> {
    node.properties.map_values(
        |p: (Text, ValueModel)| (p.0, PropertyModel { value: p.1, source }),
    )
}

/// A row as it stands on one side.
pub open spec fn taken_from(ctx: Ctx, entry: MergeEntry, side: Side) -> Draft {
    let node = ctx.nodes(entry).of(side)->0;
    let source = three_way::source_of_side(side);
    Draft {
        class: node.class,
        name: node.name,
        parent: ctx.parent_row(Some(node), source),
        properties: side_properties(node, source),
    }
}

pub open spec fn merged_class(ctx: Ctx, entry: MergeEntry) -> Option<Text> {
    rows::merged_text(ctx, entry, "ClassName"@, rows::classes_of(ctx, entry))
}

pub open spec fn merged_name(ctx: Ctx, entry: MergeEntry) -> Option<Text> {
    rows::merged_text(ctx, entry, "Name"@, rows::names_of(ctx, entry))
}

/// The merged fields of a row; nothing where the row is dropped or its class or
/// name is in conflict.
pub open spec fn draft(ctx: Ctx, entry: MergeEntry) -> Option<Draft> {
    match rows::decision(ctx, entry) {
        NodeDecision::Drop => None,
        NodeDecision::TakeSide(side) => Some(taken_from(ctx, entry, side)),
        NodeDecision::Merge => match (merged_class(ctx, entry), merged_name(ctx, entry)) {
            (Some(class), Some(name)) => Some(
                Draft {
                    class,
                    name,
                    parent: rows::merged_parent(ctx, entry),
                    properties: properties::row_properties(
                        ctx,
                        entry,
                        properties::row_keys(ctx, entry),
                    ),
                },
            ),
            _ => None,
        },
    }
}

/// The conflicts after the merge of a row.
pub open spec fn entry_conflicts(ctx: Ctx, entry: MergeEntry, before: Seq<ConflictModel>) -> Seq<
    ConflictModel,
> {
    let decided = rows::decision_conflicts(ctx, entry, before);
    match rows::decision(ctx, entry) {
        NodeDecision::Merge => {
            let classed = rows::text_conflicts(
                ctx,
                entry,
                "ClassName"@,
                rows::classes_of(ctx, entry),
                decided,
            );
            let named = rows::text_conflicts(
                ctx,
                entry,
                "Name"@,
                rows::names_of(ctx, entry),
                classed,
            );
            if merged_class(ctx, entry) is None {
                classed
            } else if merged_name(ctx, entry) is None {
                named
            } else {
                properties::row_conflicts(
                    ctx,
                    entry,
                    properties::row_keys(ctx, entry),
                    rows::parent_conflicts(ctx, entry, named),
                )
            }
        },
        _ => decided,
    }
}

/// The conflicts after the merge of the first `n` rows.
pub open spec fn rows_conflicts(ctx: Ctx, n: int, before: Seq<ConflictModel>) -> Seq<ConflictModel>
    decreases n,
{
    if n <= 0 {
        before
    } else {
        entry_conflicts(ctx, ctx.rows.entries[n - 1], rows_conflicts(ctx, n - 1, before))
    }
}

/// The referent that a row would like to keep: that of ours, else of theirs, else
/// of the base.
pub open spec fn preferred_referent(ctx: Ctx, entry: MergeEntry) -> u128 {
    let nodes = ctx.nodes(entry);
    match (nodes.ours, nodes.theirs, nodes.base) {
        (Some(n), _, _) => n.source_ref,
        (None, Some(n), _) => n.source_ref,
        (None, None, Some(n)) => n.source_ref,
        _ => 0,
    }
}

/// Whether a row before `r` has that referent.
pub open spec fn referent_used(g: GraphModel, r: int, referent: u128) -> bool {
    exists|s: int|
        0 <= s < r && (#[trigger] g[s]) is Some && g[s]->0.referent == referent
}

/// A row keeps the referent that it would like to keep if that is not nil and no
/// row before has it; otherwise it has another one that is not nil and that no
/// row before has.
pub open spec fn referent_ok(ctx: Ctx, g: GraphModel, r: int) -> bool {
    let wanted = preferred_referent(ctx, ctx.rows.entries[r]);
    let has = g[r]->0.referent;
    &&& has != 0
    &&& !referent_used(g, r, has)
    &&& wanted != 0 && !referent_used(g, r, wanted) ==> has == wanted
}

/// What the first `n` rows of the graph are: the merged fields, no children yet,
/// and referents of their own.
pub open spec fn merged_rows(ctx: Ctx, g: GraphModel, n: int) -> bool {
    forall|r: int|
        0 <= r < n ==> match (#[trigger] g[r]) {
            Some(node) => {
                &&& draft(ctx, ctx.rows.entries[r]) == Some(
                    Draft {
                        class: node.class,
                        name: node.name,
                        parent: node.parent,
                        properties: node.properties,
                    },
                )
                &&& node.children == Seq::<usize>::empty()
                &&& referent_ok(ctx, g, r)
            },
            None => draft(ctx, ctx.rows.entries[r]) is None,
        }
}

/// The referents that rows of the graph have.
pub open spec fn used_by(g: GraphModel, n: int, used: Map<u128, usize>) -> bool {
    forall|x: u128| #[trigger] used.contains_key(x) <==> referent_used(g, n, x)
}

/// Numbers from one up to below `c` that are all in a finite set are no more than
/// its members.
proof fn lemma_counting(s: Set<u128>, c: u128)
    requires
        s.finite(),
        c >= 1,
        forall|x: u128| 1 <= x < c ==> #[trigger] s.contains(x),
    ensures
        c - 1 <= s.len(),
    decreases c,
{
    if c > 1 {
        let last = (c - 1) as u128;
        let t = s.remove(last);
        assert forall|x: u128| 1 <= x < last implies #[trigger] t.contains(x) by {
            assert(s.contains(x));
        }
        lemma_counting(t, last);
        assert(s.contains(last));
    }
}

/// Chooses a referent that is not in use.
fn unused_referent(used: &HashMap<u128, usize>) -> (res: u128)
    ensures
        res != 0,
        !used@.contains_key(res),
{
    let drawn = random_referent();
    if !used.contains_key(&drawn) {
        return drawn;
    }
    let count: usize = used.len();
    let mut c: u128 = 1;
    while used.contains_key(&c)
        invariant
            1 <= c,
            count == used@.len(),
            forall|x: u128| 1 <= x < c ==> #[trigger] used@.dom().contains(x),
        decreases u128::MAX - c,
    {
        proof {
            assert(used@.dom().finite());
            lemma_counting(used@.dom(), c);
            assert(c - 1 <= usize::MAX);
        }
        c += 1;
    }
    c
}

fn wanted_referent(ctx: &MergeCtx, entry: &MergeEntry) -> (res: u128)
    requires
        context::entry_wf(ctx@, *entry),
    ensures
        res == preferred_referent(ctx@, *entry),
{
    let nodes = ctx.nodes(entry);
    if let Some(node) = nodes.ours {
        node.source_ref
    } else if let Some(node) = nodes.theirs {
        node.source_ref
    } else if let Some(node) = nodes.base {
        node.source_ref
    } else {
        0
    }
}

/// Chooses the referent of a row.
pub fn choose_referent(ctx: &MergeCtx, entry: &MergeEntry, used: &HashMap<u128, usize>) -> (res:
    u128)
    requires
        context::entry_wf(ctx@, *entry),
    ensures
        res != 0,
        !used@.contains_key(res),
        preferred_referent(ctx@, *entry) != 0 && !used@.contains_key(
            preferred_referent(ctx@, *entry),
        ) ==> res == preferred_referent(ctx@, *entry),
{
    let wanted = wanted_referent(ctx, entry);
    if wanted != 0 && !used.contains_key(&wanted) {
        wanted
    } else {
        unused_referent(used)
    }
}

fn copy_properties(node: &SemanticInstance, source: ValueSource) -> (res: Vec<
    (String, MergedProperty),
>)
    ensures
        keyed::view_list(res@) == side_properties(node@, source),
{
    let mut out: Vec<(String, MergedProperty)> = Vec::new();
    let mut i: usize = 0;
    while i < node.properties.len()
        invariant
            i <= node.properties.len(),
            out.len() == i,
            forall|k: int|
                0 <= k < i ==> (#[trigger] out@[k]).0@ == node.properties@[k].0@ && out@[k].1@ == (
                PropertyModel { value: node.properties@[k].1@, source }),
        decreases node.properties.len() - i,
    {
        let value = copy_value(&node.properties[i].1);
        out.push((node.properties[i].0.clone(), MergedProperty { value, source }));
        i += 1;
    }
    assert(keyed::view_list(out@) =~= side_properties(node@, source));
    out
}

/// The fields of a row before it gets a referent.
struct Fields {
    class: String,
    name: String,
    parent: Option<usize>,
    properties: Vec<(String, MergedProperty)>,
}

impl Fields {
    spec fn model(self) -> Draft {
        Draft {
            class: self.class@,
            name: self.name@,
            parent: self.parent,
            properties: keyed::view_list(self.properties@),
        }
    }
}

/// Takes a row as it stands on one side.
fn materialize_from_side(ctx: &MergeCtx, entry: &MergeEntry, side: Side) -> (res: Fields)
    requires
        ctx.wf(),
        context::entry_wf(ctx@, *entry),
        ctx@.nodes(*entry).of(side) is Some,
    ensures
        res.model() == taken_from(ctx@, *entry, side),
{
    let nodes = ctx.nodes(entry);
    let chosen = match side {
        Side::Base => nodes.base,
        Side::Ours => nodes.ours,
        Side::Theirs => nodes.theirs,
    };
    let source = side_source(side);
    let node = match chosen {
        Some(node) => node,
        None => ctx.base.node(0),
    };
    Fields {
        class: node.class.clone(),
        name: node.name.clone(),
        parent: ctx.parent_of(Some(node), source),
        properties: copy_properties(node, source),
    }
}

/// Merges the fields of a row.
fn merge_row(ctx: &MergeCtx, entry: &MergeEntry, conflicts: &mut Vec<Conflict>) -> (res: Option<
    Fields,
>)
    requires
        ctx.wf(),
        context::entry_wf(ctx@, *entry),
    ensures
        match res {
            Some(fields) => draft(ctx@, *entry) == Some(fields.model()),
            None => draft(ctx@, *entry) is None,
        },
        conflict::conflicts_view(final(conflicts)@) == entry_conflicts(
            ctx@,
            *entry,
            conflict::conflicts_view(old(conflicts)@),
        ),
{
    match deletion_decision(ctx, entry, conflicts) {
        NodeDecision::Drop => {
            return None;
        },
        NodeDecision::TakeSide(side) => {
            return Some(materialize_from_side(ctx, entry, side));
        },
        NodeDecision::Merge => {},
    }
    let class = match merge_class(ctx, entry, conflicts) {
        Some(class) => class,
        None => {
            return None;
        },
    };
    let name = match merge_name(ctx, entry, conflicts) {
        Some(name) => name,
        None => {
            return None;
        },
    };
    let parent = merge_parent(ctx, entry, conflicts);
    let properties = merge_properties(ctx, entry, conflicts);
    Some(Fields { class, name, parent, properties })
}

proof fn lemma_row_added(
    ctx: Ctx,
    g: GraphModel,
    h: GraphModel,
    r: int,
    used: Map<u128, usize>,
    after: Map<u128, usize>,
)
    requires
        0 <= r < g.len(),
        h.len() == g.len(),
        merged_rows(ctx, g, r),
        used_by(g, r, used),
        h == g || (h[r] is Some && h == g.update(r, h[r])),
        match h[r] {
            Some(node) => {
                &&& draft(ctx, ctx.rows.entries[r]) == Some(
                    Draft {
                        class: node.class,
                        name: node.name,
                        parent: node.parent,
                        properties: node.properties,
                    },
                )
                &&& node.children == Seq::<usize>::empty()
                &&& node.referent != 0
                &&& !used.contains_key(node.referent)
                &&& preferred_referent(ctx, ctx.rows.entries[r]) != 0 && !used.contains_key(
                    preferred_referent(ctx, ctx.rows.entries[r]),
                ) ==> node.referent == preferred_referent(ctx, ctx.rows.entries[r])
                &&& after == used.insert(node.referent, r as usize)
            },
            None => draft(ctx, ctx.rows.entries[r]) is None && after == used,
        },
    ensures
        merged_rows(ctx, h, r + 1),
        used_by(h, r + 1, after),
{
    assert forall|s: int, x: u128| 0 <= s <= r implies #[trigger] referent_used(h, s, x)
        == referent_used(g, s, x) by {
        if referent_used(h, s, x) {
            let k = choose|k: int|
                0 <= k < s && (#[trigger] h[k]) is Some && h[k]->0.referent == x;
            assert(g[k] == h[k]);
        }
        if referent_used(g, s, x) {
            let k = choose|k: int|
                0 <= k < s && (#[trigger] g[k]) is Some && g[k]->0.referent == x;
            assert(g[k] == h[k]);
        }
    }
    assert forall|s: int| 0 <= s < r + 1 implies match (#[trigger] h[s]) {
        Some(node) => {
            &&& draft(ctx, ctx.rows.entries[s]) == Some(
                Draft {
                    class: node.class,
                    name: node.name,
                    parent: node.parent,
                    properties: node.properties,
                },
            )
            &&& node.children == Seq::<usize>::empty()
            &&& referent_ok(ctx, h, s)
        },
        None => draft(ctx, ctx.rows.entries[s]) is None,
    } by {
        if s < r {
            assert(g[s] == h[s]);
            if g[s] is Some {
                assert(referent_ok(ctx, g, s));
                let has = g[s]->0.referent;
                let wanted = preferred_referent(ctx, ctx.rows.entries[s]);
                assert(referent_used(h, s, has) == referent_used(g, s, has));
                assert(referent_used(h, s, wanted) == referent_used(g, s, wanted));
            }
        } else if h[s] is Some {
            let has = h[r]->0.referent;
            let wanted = preferred_referent(ctx, ctx.rows.entries[r]);
            assert(used.contains_key(has) <==> referent_used(g, r, has));
            assert(used.contains_key(wanted) <==> referent_used(g, r, wanted));
            assert(referent_used(h, r, has) == referent_used(g, r, has));
            assert(referent_used(h, r, wanted) == referent_used(g, r, wanted));
        }
    }
    assert forall|x: u128| #[trigger] after.contains_key(x) <==> referent_used(h, r + 1, x) by {
        assert(used.contains_key(x) <==> referent_used(g, r, x));
        assert(referent_used(h, r, x) == referent_used(g, r, x));
        if referent_used(h, r, x) {
            let k = choose|k: int|
                0 <= k < r && (#[trigger] h[k]) is Some && h[k]->0.referent == x;
            assert(h[k] is Some);
        }
        if referent_used(h, r + 1, x) {
            let k = choose|k: int|
                0 <= k < r + 1 && (#[trigger] h[k]) is Some && h[k]->0.referent == x;
            if k < r {
                assert(referent_used(h, r, x));
            }
        }
    }
}

/// Merges every row.
pub fn merge_semantic_graph(ctx: &MergeCtx, conflicts: &mut Vec<Conflict>) -> (res: MergedGraph)
    requires
        ctx.wf(),
    ensures
        res@.len() == ctx@.rows.entries.len(),
        merged_rows(ctx@, res@, res@.len() as int),
        conflict::conflicts_view(final(conflicts)@) == rows_conflicts(
            ctx@,
            ctx@.rows.entries.len() as int,
            conflict::conflicts_view(old(conflicts)@),
        ),
{
    let ghost start = conflict::conflicts_view(conflicts@);
    let rows: usize = ctx.identities.count();
    let mut graph = MergedGraph::new(rows);
    let mut used: HashMap<u128, usize> = HashMap::new();
    let mut r: usize = 0;
    while r < rows
        invariant
            r <= rows,
            rows == ctx@.rows.entries.len(),
            ctx.wf(),
            graph@.len() == rows,
            merged_rows(ctx@, graph@, r as int),
            forall|k: int| r <= k < rows ==> #[trigger] graph@[k] is None,
            used_by(graph@, r as int, used@),
            conflict::conflicts_view(conflicts@) == rows_conflicts(ctx@, r as int, start),
        decreases rows - r,
    {
        proof {
            context::lemma_entry_wf(ctx@, r as int);
        }
        let entry = ctx.identities.entry(r);
        let ghost before = graph@;
        let ghost used_before = used@;
        if let Some(fields) = merge_row(ctx, &entry, conflicts) {
            let referent = choose_referent(ctx, &entry, &used);
            used.insert(referent, r);
            let instance = MergedInstance {
                class: fields.class,
                name: fields.name,
                parent: fields.parent,
                children: Vec::new(),
                properties: fields.properties,
                referent,
            };
            assert(instance@.children =~= Seq::<usize>::empty());
            graph.put(r, instance);
        }
        proof {
            lemma_row_added(ctx@, before, graph@, r as int, used_before, used@);
        }
        r += 1;
    }
    graph
}

} // verus!
