//! The merged graph as an instance tree that can be written.

use std::collections::HashMap;

use rbx_dom_weak::WeakDom;
use rbx_types::Variant;
use vstd::prelude::*;

use crate::child_order;
use crate::context;
use crate::context::{Ctx, MergeCtx};
use crate::cycles;
use crate::dom;
use crate::dom::{insert_instance, new_tree, Forest, RawModel};
use crate::graph::{GraphModel, MergedGraph, MergedInstance, NodeModel};
use crate::graph_wf;
use crate::keyed;
use crate::properties::PropertyModel;
use crate::semantic::{InstanceModel, SemanticInstance, ValueSource};
use crate::text;
use crate::text::Text;
use crate::value;
use crate::value::{value_into_variant, Value, ValueModel};
use crate::variant;

verus! {

broadcast use vstd::std_specs::hash::group_hash_axioms;

// ---------------------------------------------------------------------------
// References
// ---------------------------------------------------------------------------

/// The referents that the instances of the three sides have in the merged tree.
#[verifier::ext_equal]
pub ghost struct RefMaps {
    pub base: Map<u128, u128>,
    pub ours: Map<u128, u128>,
    pub theirs: Map<u128, u128>,
}

pub open spec fn with_final(
    m: Map<u128, u128>,
    node: Option<InstanceModel>,
    referent: u128,
) -> Map<u128, u128> {
    match node {
        Some(node) => m.insert(node.source_ref, referent),
        None => m,
    }
}

/// The referents that the rows below `n` have in the merged tree.
pub open spec fn final_refs(ctx: Ctx, g: GraphModel, n: int) -> RefMaps
    decreases n,
{
    if n <= 0 {
        RefMaps { base: Map::empty(), ours: Map::empty(), theirs: Map::empty() }
    } else {
        let before = final_refs(ctx, g, n - 1);
        match g[n - 1] {
            Some(node) => {
                let nodes = ctx.nodes(ctx.rows.entries[n - 1]);
                RefMaps {
                    base: with_final(before.base, nodes.base, node.referent),
                    ours: with_final(before.ours, nodes.ours, node.referent),
                    theirs: with_final(before.theirs, nodes.theirs, node.referent),
                }
            },
            None => before,
        }
    }
}

/// A referent as it is written: nil stays nil, a referent of a surviving instance
/// becomes that of its row, and any other stays as it is. So does a referent in a
/// value that was put together from several sides.
pub open spec fn rewritten_ref(maps: RefMaps, source: ValueSource, referent: u128) -> u128 {
    let map = match source {
        ValueSource::Base => maps.base,
        ValueSource::Ours => maps.ours,
        ValueSource::Theirs => maps.theirs,
        ValueSource::Merged => Map::empty(),
    };
    if referent != 0 && map.contains_key(referent) {
        map[referent]
    } else {
        referent
    }
}

/// A value with the referents as they are written.
pub open spec fn rewritten(maps: RefMaps, source: ValueSource, v: ValueModel) -> ValueModel
    decreases v,
{
    match v {
        ValueModel::Ref(r) => ValueModel::Ref(rewritten_ref(maps, source, r)),
        ValueModel::Object(r) => ValueModel::Object(rewritten_ref(maps, source, r)),
        ValueModel::Attributes(list) => ValueModel::Attributes(rewritten_list(maps, source, list)),
        ValueModel::Leaf(_) => v,
    }
}

pub open spec fn rewritten_list(
    maps: RefMaps,
    source: ValueSource,
    list: Seq<(Text, ValueModel)>,
) -> Seq<(Text, ValueModel)>
    decreases list,
{
    if list.len() == 0 {
        Seq::empty()
    } else {
        rewritten_list(maps, source, list.drop_last()).push(
            (list.last().0, rewritten(maps, source, list.last().1)),
        )
    }
}

pub proof fn lemma_rewritten_list(maps: RefMaps, source: ValueSource, list: Seq<(Text, ValueModel)>)
    ensures
        rewritten_list(maps, source, list).len() == list.len(),
        forall|i: int|
            0 <= i < list.len() ==> (#[trigger] rewritten_list(maps, source, list)[i]) == (
                list[i].0,
                rewritten(maps, source, list[i].1),
            ),
    decreases list.len(),
{
    if list.len() > 0 {
        lemma_rewritten_list(maps, source, list.drop_last());
        let a = rewritten_list(maps, source, list.drop_last());
        let b = rewritten_list(maps, source, list);
        assert forall|i: int| 0 <= i < list.len() implies (#[trigger] b[i]) == (
            list[i].0,
            rewritten(maps, source, list[i].1),
        ) by {
            if i < a.len() {
                assert(b[i] == a[i]);
            }
        }
    }
}

/// Rewriting keeps a value well-formed.
proof fn lemma_rewritten_wf(maps: RefMaps, source: ValueSource, v: ValueModel)
    requires
        value::value_wf(v),
    ensures
        value::value_wf(rewritten(maps, source, v)),
    decreases value::height(v),
{
    if let ValueModel::Attributes(list) = v {
        lemma_rewritten_list(maps, source, list);
        let new = rewritten_list(maps, source, list);
        assert forall|i: int, j: int| 0 <= i < j < new.len() implies text::text_lt(
            (#[trigger] new[i]).0,
            (#[trigger] new[j]).0,
        ) by {
            assert(new[i].0 == list[i].0 && new[j].0 == list[j].0);
        }
        assert forall|i: int| 0 <= i < new.len() implies value::value_wf((#[trigger] new[i]).1) by {
            value::lemma_height(list, i);
            lemma_rewritten_wf(maps, source, list[i].1);
        }
    }
}

/// The referents that the instances of the three sides have in the merged tree.
pub struct BuildRefMaps {
    pub base_refs: HashMap<u128, u128>,
    pub ours_refs: HashMap<u128, u128>,
    pub theirs_refs: HashMap<u128, u128>,
}

impl View for BuildRefMaps {
    type V = RefMaps;

    open spec fn view(&self) -> RefMaps {
        RefMaps { base: self.base_refs@, ours: self.ours_refs@, theirs: self.theirs_refs@ }
    }
}

fn note_final(map: &mut HashMap<u128, u128>, node: Option<&SemanticInstance>, referent: u128)
    ensures
        final(map)@ == with_final(old(map)@, context::instance_view(node), referent),
{
    if let Some(node) = node {
        map.insert(node.source_ref, referent);
    }
}

impl BuildRefMaps {
    /// Lists the referents of the surviving rows.
    pub fn new(ctx: &MergeCtx, graph: &MergedGraph) -> (res: Self)
        requires
            ctx.wf(),
            graph@.len() == ctx@.rows.entries.len(),
        ensures
            res@ == final_refs(ctx@, graph@, graph@.len() as int),
    {
        let mut base_refs: HashMap<u128, u128> = HashMap::new();
        let mut ours_refs: HashMap<u128, u128> = HashMap::new();
        let mut theirs_refs: HashMap<u128, u128> = HashMap::new();
        let mut r: usize = 0;
        while r < graph.rows
            invariant
                r <= graph.rows,
                ctx.wf(),
                graph@.len() == ctx@.rows.entries.len(),
                final_refs(ctx@, graph@, r as int) == (RefMaps {
                    base: base_refs@,
                    ours: ours_refs@,
                    theirs: theirs_refs@,
                }),
            decreases graph.rows - r,
        {
            if let Some(node) = graph.get(r) {
                proof {
                    context::lemma_entry_wf(ctx@, r as int);
                }
                let entry = ctx.identities.entry(r);
                let nodes = ctx.nodes(&entry);
                note_final(&mut base_refs, nodes.base, node.referent);
                note_final(&mut ours_refs, nodes.ours, node.referent);
                note_final(&mut theirs_refs, nodes.theirs, node.referent);
            }
            r += 1;
        }
        BuildRefMaps { base_refs, ours_refs, theirs_refs }
    }

    /// A referent as it is written.
    pub fn rewrite_ref(&self, source: ValueSource, referent: u128) -> (res: u128)
        ensures
            res == rewritten_ref(self@, source, referent),
    {
        if referent == 0 {
            return referent;
        }
        let found = match source {
            ValueSource::Base => self.base_refs.get(&referent),
            ValueSource::Ours => self.ours_refs.get(&referent),
            ValueSource::Theirs => self.theirs_refs.get(&referent),
            ValueSource::Merged => None,
        };
        match found {
            Some(r) => *r,
            None => referent,
        }
    }

    /// A value with the referents as they are written.
    pub fn rewrite_value(&self, source: ValueSource, v: &Value) -> (res: Value)
        ensures
            res@ == rewritten(self@, source, v@),
        decreases value::height(v@),
    {
        match v {
            Value::Ref(r) => Value::Ref(self.rewrite_ref(source, *r)),
            Value::Object(r) => Value::Object(self.rewrite_ref(source, *r)),
            Value::Attributes(list) => {
                let ghost model = keyed::view_list(list@);
                proof {
                    value::lemma_attributes_view(*v);
                    lemma_rewritten_list(self@, source, model);
                }
                let mut out: Vec<(String, Value)> = Vec::new();
                let mut i: usize = 0;
                while i < list.len()
                    invariant
                        i <= list.len(),
                        out.len() == i,
                        model == keyed::view_list(list@),
                        v@ == ValueModel::Attributes(model),
                        forall|j: int|
                            0 <= j < i ==> (#[trigger] out@[j]).0@ == model[j].0 && out@[j].1@
                                == rewritten(self@, source, model[j].1),
                    decreases list.len() - i,
                {
                    proof {
                        value::lemma_height(model, i as int);
                        assert(model[i as int] == (list@[i as int].0@, list@[i as int].1@));
                    }
                    let inner = self.rewrite_value(source, &list[i].1);
                    out.push((list[i].0.clone(), inner));
                    i += 1;
                }
                let res = Value::Attributes(out);
                proof {
                    value::lemma_attributes_view(res);
                    assert(keyed::view_list(out@) =~= rewritten_list(self@, source, model));
                }
                res
            },
            Value::Leaf(variant) => Value::Leaf(variant.clone()),
        }
    }
}

// ---------------------------------------------------------------------------
// Properties
// ---------------------------------------------------------------------------

/// Whether written properties are those of a row, with the referents rewritten.
pub open spec fn holds_properties(
    maps: RefMaps,
    list: Seq<(Text, PropertyModel)>,
    written: Map<Text, Variant>,
) -> bool {
    forall|k: Text|
        match keyed::lookup(list, k) {
            Some(p) => written.contains_key(k) && value::value_of(#[trigger] written[k])
                == rewritten(maps, p.source, p.value),
            None => !written.contains_key(k),
        }
}

/// The unique id of a row, nil or not.
pub open spec fn row_id(node: NodeModel) -> Option<u128> {
    match keyed::lookup(node.properties, dom::unique_id_key()) {
        Some(p) => value::unique_id_value(p.value),
        None => None,
    }
}

/// No two surviving rows have the same unique id, not even the nil one.
pub open spec fn ids_distinct(g: GraphModel) -> bool {
    forall|r: int, s: int|
        0 <= r < s < g.len() && (#[trigger] g[r]) is Some && (#[trigger] g[s]) is Some && row_id(
            g[r]->0,
        ) is Some ==> row_id(g[r]->0) != row_id(g[s]->0)
}

/// Whether written properties are those of a row, up to a unique id that may have
/// been replaced by another.
pub open spec fn nearly_holds(
    maps: RefMaps,
    node: NodeModel,
    written: Map<Text, Variant>,
) -> bool {
    exists|brought: Map<Text, Variant>| #[trigger]
        holds_properties(maps, node.properties, brought) && same_but_id(node, brought, written)
}

pub open spec fn same_but_id(
    node: NodeModel,
    brought: Map<Text, Variant>,
    written: Map<Text, Variant>,
) -> bool {
    written == brought || (row_id(node) is Some && exists|fresh: Variant|
        variant::shape(fresh) is UniqueId && written == #[trigger] brought.insert(
            dom::unique_id_key(),
            fresh,
        ))
}

/// A list of variants that are the rewritten values of a list of properties.
spec fn aligned(
    maps: RefMaps,
    list: Seq<(Text, PropertyModel)>,
    variants: Seq<(Text, Variant)>,
) -> bool {
    &&& list.len() == variants.len()
    &&& forall|i: int|
        0 <= i < list.len() ==> (#[trigger] variants[i]).0 == list[i].0 && value::value_of(
            variants[i].1,
        ) == rewritten(maps, list[i].1.source, list[i].1.value)
}

proof fn lemma_aligned_lookup(
    maps: RefMaps,
    list: Seq<(Text, PropertyModel)>,
    variants: Seq<(Text, Variant)>,
    k: Text,
)
    requires
        aligned(maps, list, variants),
    ensures
        match keyed::lookup(list, k) {
            Some(p) => keyed::lookup(variants, k) is Some && value::value_of(
                keyed::lookup(variants, k)->0,
            ) == rewritten(maps, p.source, p.value),
            None => keyed::lookup(variants, k) is None,
        },
    decreases list.len(),
{
    if list.len() > 0 {
        assert(variants[0].0 == list[0].0);
        let l = list.drop_first();
        let v = variants.drop_first();
        assert forall|i: int| 0 <= i < l.len() implies (#[trigger] v[i]).0 == l[i].0
            && value::value_of(v[i].1) == rewritten(maps, l[i].1.source, l[i].1.value) by {
            assert(v[i] == variants[i + 1]);
            assert(l[i] == list[i + 1]);
        }
        lemma_aligned_lookup(maps, l, v, k);
    }
}

proof fn lemma_aligned_map(
    maps: RefMaps,
    list: Seq<(Text, PropertyModel)>,
    variants: Seq<(Text, Variant)>,
)
    requires
        aligned(maps, list, variants),
    ensures
        holds_properties(maps, list, dom::map_of(variants)),
{
    let written = dom::map_of(variants);
    assert forall|k: Text|
        match keyed::lookup(list, k) {
            Some(p) => written.contains_key(k) && value::value_of(#[trigger] written[k])
                == rewritten(maps, p.source, p.value),
            None => !written.contains_key(k),
        } by {
        lemma_aligned_lookup(maps, list, variants, k);
    }
}

/// The unique id that written properties bring along is that of the row.
pub proof fn lemma_brought_id(maps: RefMaps, node: NodeModel, brought: Map<Text, Variant>)
    requires
        holds_properties(maps, node.properties, brought),
    ensures
        dom::brought_id(brought) == row_id(node),
{
    let k = dom::unique_id_key();
    let v = brought[k];
    if let Some(p) = keyed::lookup(node.properties, k) {
        assert(value::value_of(v) == rewritten(maps, p.source, p.value));
    }
}

/// The properties of a row as they are written.
fn build_properties(node: &MergedInstance, refs: &BuildRefMaps) -> (res: Vec<(String, Variant)>)
    requires
        graph_wf::properties_wf(node@.properties),
    ensures
        keyed::sorted(dom::property_list(res@)),
        holds_properties(refs@, node@.properties, dom::map_of(dom::property_list(res@))),
{
    let ghost list = node@.properties;
    let mut out: Vec<(String, Variant)> = Vec::new();
    let mut i: usize = 0;
    while i < node.properties.len()
        invariant
            i <= node.properties.len(),
            list == node@.properties,
            graph_wf::properties_wf(list),
            out.len() == i,
            forall|k: int|
                0 <= k < i ==> (#[trigger] out@[k]).0@ == list[k].0 && value::value_of(out@[k].1)
                    == rewritten(refs@, list[k].1.source, list[k].1.value),
        decreases node.properties.len() - i,
    {
        let property = &node.properties[i].1;
        assert(list[i as int] == (node.properties@[i as int].0@, property@));
        proof {
            assert(value::value_wf(list[i as int].1.value));
            lemma_rewritten_wf(refs@, property@.source, property@.value);
        }
        let rewritten = refs.rewrite_value(property.source, &property.value);
        out.push((node.properties[i].0.clone(), value_into_variant(&rewritten)));
        i += 1;
    }
    proof {
        let variants = dom::property_list(out@);
        assert forall|k: int| 0 <= k < list.len() implies (#[trigger] variants[k]).0 == list[k].0
            && value::value_of(variants[k].1) == rewritten(
            refs@,
            list[k].1.source,
            list[k].1.value,
        ) by {
            assert(out@[k].0@ == list[k].0);
        }
        assert forall|a: int, b: int| 0 <= a < b < variants.len() implies text::text_lt(
            (#[trigger] variants[a]).0,
            (#[trigger] variants[b]).0,
        ) by {
            assert(list[a].0 == variants[a].0 && list[b].0 == variants[b].0);
        }
        lemma_aligned_map(refs@, list, variants);
    }
    out
}

// ---------------------------------------------------------------------------
// The tree
// ---------------------------------------------------------------------------

/// The graph is a forest: the root survives, and the children of every row are the
/// rows under it, each of them once.
pub open spec fn ready(g: GraphModel) -> bool {
    &&& graph_wf::graph_wf(g)
    &&& g[0] is Some
    &&& forall|r: int|
        0 <= r < g.len() && (#[trigger] g[r]) is Some ==> g[r]->0.children.no_duplicates()
            && children_complete(g, r)
}

pub open spec fn children_complete(g: GraphModel, r: int) -> bool {
    forall|x: usize| #[trigger]
        g[r]->0.children.contains(x) <==> child_order::is_under(g, r as usize, x)
}

/// Whether a row survives and is the root after so many steps upwards.
pub open spec fn reaches_root(g: GraphModel, r: usize, steps: nat) -> bool
    decreases steps,
{
    r < g.len() && g[r as int] is Some && if steps == 0 {
        r == 0
    } else {
        match g[r as int]->0.parent {
            Some(p) => reaches_root(g, p, (steps - 1) as nat),
            None => false,
        }
    }
}

/// Whether the root leads to a row.
pub open spec fn reached(g: GraphModel, r: usize) -> bool {
    exists|steps: nat| #[trigger] reaches_root(g, r, steps)
}

/// The referents of some rows.
pub open spec fn referents(g: GraphModel, list: Seq<usize>) -> Seq<u128> {
    list.map_values(|r: usize| g[r as int]->0.referent)
}

/// Whether an instance of a tree has that unique id.
pub open spec fn has_id(tree: Forest, u: u128) -> bool {
    exists|x: u128|
        tree.instances.contains_key(x) && dom::brought_id(
            (#[trigger] tree.instances[x]).properties,
        ) == Some(u)
}

/// Whether a tree holds a row as it is. Its unique id is in the tree, though another
/// instance may have it.
pub open spec fn row_built(maps: RefMaps, g: GraphModel, r: usize, tree: Forest) -> bool {
    let node = g[r as int]->0;
    let raw = tree.instances[node.referent];
    &&& tree.instances.contains_key(node.referent)
    &&& raw.class == node.class
    &&& raw.name == node.name
    &&& raw.children == referents(g, node.children)
    &&& nearly_holds(maps, node, raw.properties)
    &&& ids_distinct(g) ==> holds_properties(maps, node.properties, raw.properties)
    &&& row_id(node) matches Some(u) ==> has_id(tree, u)
}

/// Whether a tree is the merged graph: it holds the rows that the root leads to,
/// and nothing else.
pub open spec fn built(maps: RefMaps, g: GraphModel, tree: Forest) -> bool {
    &&& tree.root == g[0]->0.referent
    &&& forall|r: usize| #[trigger] reached(g, r) ==> row_built(maps, g, r, tree)
    &&& forall|x: u128| #[trigger]
        tree.instances.contains_key(x) ==> exists|r: usize| #[trigger]
            reached(g, r) && g[r as int]->0.referent == x
}

/// The rows of a list, in the order in which they come into the tree: the children
/// of the first `i` rows are all in it, and of the next one the first `m`.
spec fn order_ok(g: GraphModel, order: Seq<usize>, i: int, m: int) -> bool {
    &&& order.len() > 0
    &&& order[0] == 0
    &&& 0 <= i <= order.len()
    &&& order.no_duplicates()
    &&& forall|k: int| 0 <= k < order.len() ==> survives(g, #[trigger] order[k])
    &&& forall|k: int| 0 < k < order.len() ==> #[trigger] comes_after_parent(g, order, i, m, k)
    &&& forall|j: int, c: usize|
        0 <= j < i && #[trigger] children_of(g, order[j]).contains(c) ==> order.contains(c)
    &&& i < order.len() ==> 0 <= m <= children_of(g, order[i]).len() && forall|j: int|
        0 <= j < m ==> order.contains(#[trigger] children_of(g, order[i])[j])
    &&& i == order.len() ==> m == 0
}

spec fn survives(g: GraphModel, r: usize) -> bool {
    r < g.len() && g[r as int] is Some
}

spec fn children_of(g: GraphModel, r: usize) -> Seq<usize> {
    g[r as int]->0.children
}

spec fn comes_after_parent(g: GraphModel, order: Seq<usize>, i: int, m: int, k: int) -> bool {
    exists|j: int|
        0 <= j < k && j <= i && g[order[k] as int]->0.parent == Some(#[trigger] order[j]) && (j == i
            ==> children_of(g, order[i]).take(m).contains(order[k]))
}

/// The children of the `k`th row that are in the tree already.
spec fn placed_children(g: GraphModel, order: Seq<usize>, i: int, m: int, k: int) -> Seq<usize> {
    if k < i {
        children_of(g, order[k])
    } else if k == i {
        children_of(g, order[k]).take(m)
    } else {
        Seq::empty()
    }
}

spec fn row_placed(maps: RefMaps, g: GraphModel, r: usize, children: Seq<usize>, tree: Forest) -> bool {
    let node = g[r as int]->0;
    let raw = tree.instances[node.referent];
    &&& tree.instances.contains_key(node.referent)
    &&& raw.class == node.class
    &&& raw.name == node.name
    &&& raw.children == referents(g, children)
    &&& nearly_holds(maps, node, raw.properties)
    &&& ids_distinct(g) ==> holds_properties(maps, node.properties, raw.properties)
}

spec fn in_order(g: GraphModel, order: Seq<usize>, x: u128) -> bool {
    exists|k: int| 0 <= k < order.len() && g[#[trigger] order[k] as int]->0.referent == x
}

spec fn id_in_order(g: GraphModel, order: Seq<usize>, u: u128) -> bool {
    exists|k: int| 0 <= k < order.len() && row_id(g[#[trigger] order[k] as int]->0) == Some(u)
}

/// What holds while the tree grows.
spec fn growing(
    maps: RefMaps,
    g: GraphModel,
    order: Seq<usize>,
    i: int,
    m: int,
    tree: Forest,
    claimed: Set<u128>,
) -> bool {
    &&& order_ok(g, order, i, m)
    &&& tree.root == g[0]->0.referent
    &&& forall|x: u128| #[trigger] tree.instances.contains_key(x) <==> in_order(g, order, x)
    &&& forall|k: int|
        0 <= k < order.len() ==> row_placed(
            maps,
            g,
            #[trigger] order[k],
            placed_children(g, order, i, m, k),
            tree,
        )
    &&& ids_distinct(g) ==> forall|u: u128| #[trigger]
        claimed.contains(u) <==> id_in_order(g, order, u)
    &&& ids_kept(g, order, tree, claimed)
}

/// The unique ids of the rows that are in the tree are kept track of, and those are
/// in the tree.
spec fn ids_kept(g: GraphModel, order: Seq<usize>, tree: Forest, claimed: Set<u128>) -> bool {
    &&& forall|u: u128| #[trigger] claimed.contains(u) ==> has_id(tree, u)
    &&& forall|k: int|
        0 <= k < order.len() ==> (row_id(g[#[trigger] order[k] as int]->0) matches Some(u)
            ==> claimed.contains(u))
}

proof fn lemma_order_length(g: GraphModel, order: Seq<usize>, i: int, m: int)
    requires
        order_ok(g, order, i, m),
    ensures
        order.len() <= g.len(),
{
    order.unique_seq_to_set();
    assert forall|x: usize| #[trigger] order.to_set().contains(x) implies x < g.len() by {
        let k = order.index_of(x);
        assert(survives(g, order[k]));
    }
    cycles::lemma_few_rows(order.to_set(), g.len());
}

/// A child that is next was not in the tree before.
proof fn lemma_child_is_new(g: GraphModel, order: Seq<usize>, i: int, m: int)
    requires
        ready(g),
        order_ok(g, order, i, m),
        i < order.len(),
        m < children_of(g, order[i]).len(),
    ensures
        ({
            let c = children_of(g, order[i])[m];
            &&& survives(g, c)
            &&& g[c as int]->0.parent == Some(order[i])
            &&& !order.contains(c)
            &&& !in_order(g, order, g[c as int]->0.referent)
        }),
{
    let list = children_of(g, order[i]);
    let c = list[m];
    assert(survives(g, order[i]));
    assert(g[order[i] as int] is Some);
    assert(list.contains(c));
    assert(children_complete(g, order[i] as int));
    assert(child_order::is_under(g, order[i], c));
    if order.contains(c) {
        let k = order.index_of(c);
        assert(order[k] == c);
        if k > 0 {
            assert(comes_after_parent(g, order, i, m, k));
            let j = choose|j: int|
                0 <= j < k && j <= i && g[order[k] as int]->0.parent == Some(#[trigger] order[j])
                    && (j == i ==> children_of(g, order[i]).take(m).contains(order[k]));
            assert(order[j] == order[i]);
            assert(j == i);
            let t = list.take(m);
            let a = t.index_of(c);
            assert(list[a] == list[m]);
        }
    }
    if in_order(g, order, g[c as int]->0.referent) {
        let k = choose|k: int|
            0 <= k < order.len() && g[#[trigger] order[k] as int]->0.referent
                == g[c as int]->0.referent;
        assert(survives(g, order[k]));
        let r = order[k] as int;
        let s = c as int;
        assert(order[k] != c) by {
            if order[k] == c {
                assert(order.contains(c));
            }
        }
        assert(g[r] is Some && g[s] is Some);
        if r < s {
            assert(g[r]->0.referent != g[s]->0.referent);
        } else {
            assert(g[s]->0.referent != g[r]->0.referent);
        }
    }
}

proof fn lemma_order_grows(g: GraphModel, order: Seq<usize>, i: int, m: int)
    requires
        ready(g),
        order_ok(g, order, i, m),
        i < order.len(),
        m < children_of(g, order[i]).len(),
    ensures
        order_ok(g, order.push(children_of(g, order[i])[m]), i, m + 1),
{
    lemma_child_is_new(g, order, i, m);
    let list = children_of(g, order[i]);
    let c = list[m];
    let next = order.push(c);
    assert forall|k: int| 0 <= k < next.len() implies survives(g, #[trigger] next[k]) by {
        if k < order.len() {
            assert(next[k] == order[k]);
        }
    }
    assert forall|a: int, b: int| 0 <= a < next.len() && 0 <= b < next.len() && a != b implies next[a]
        != next[b] by {
        if a < order.len() {
            assert(order.contains(order[a]));
        }
        if b < order.len() {
            assert(order.contains(order[b]));
        }
    }
    assert forall|x: usize| order.contains(x) implies #[trigger] next.contains(x) by {
        assert(next[order.index_of(x)] == x);
    }
    assert(next[order.len() as int] == c);
    assert(next.contains(c));
    assert forall|k: int| 0 < k < next.len() implies #[trigger] comes_after_parent(
        g,
        next,
        i,
        m + 1,
        k,
    ) by {
        if k < order.len() {
            assert(comes_after_parent(g, order, i, m, k));
            let j = choose|j: int|
                0 <= j < k && j <= i && g[order[k] as int]->0.parent == Some(#[trigger] order[j])
                    && (j == i ==> children_of(g, order[i]).take(m).contains(order[k]));
            assert(next[j] == order[j] && next[k] == order[k]);
            if j == i {
                let a = list.take(m).index_of(order[k]);
                assert(list.take(m + 1)[a] == order[k]);
            }
            assert(g[next[k] as int]->0.parent == Some(next[j]));
        } else {
            assert(next[i] == order[i]);
            assert(list.take(m + 1)[m] == c);
            assert(g[next[k] as int]->0.parent == Some(next[i]));
        }
    }
    assert forall|j: int, x: usize|
        0 <= j < i && #[trigger] children_of(g, next[j]).contains(x) implies next.contains(x) by {
        assert(next[j] == order[j]);
        assert(children_of(g, order[j]).contains(x));
        assert(order.contains(x));
    }
    assert(next[i] == order[i]);
    assert forall|j: int| 0 <= j < m + 1 implies next.contains(
        #[trigger] children_of(g, next[i])[j],
    ) by {
        if j < m {
            assert(order.contains(children_of(g, order[i])[j]));
        }
    }
}

proof fn lemma_order_moves(g: GraphModel, order: Seq<usize>, i: int, m: int)
    requires
        order_ok(g, order, i, m),
        i < order.len(),
        m == children_of(g, order[i]).len(),
    ensures
        order_ok(g, order, i + 1, 0),
{
    let list = children_of(g, order[i]);
    assert forall|k: int| 0 < k < order.len() implies #[trigger] comes_after_parent(
        g,
        order,
        i + 1,
        0,
        k,
    ) by {
        assert(comes_after_parent(g, order, i, m, k));
        let j = choose|j: int|
            0 <= j < k && j <= i && g[order[k] as int]->0.parent == Some(#[trigger] order[j]) && (j
                == i ==> children_of(g, order[i]).take(m).contains(order[k]));
        assert(g[order[k] as int]->0.parent == Some(order[j]));
    }
    assert forall|j: int, c: usize|
        0 <= j < i + 1 && #[trigger] children_of(g, order[j]).contains(c) implies order.contains(
        c,
    ) by {
        if j == i {
            let a = list.index_of(c);
            assert(order.contains(list[a]));
        }
    }
}

proof fn lemma_moves(
    maps: RefMaps,
    g: GraphModel,
    order: Seq<usize>,
    i: int,
    m: int,
    tree: Forest,
    claimed: Set<u128>,
)
    requires
        growing(maps, g, order, i, m, tree, claimed),
        i < order.len(),
        m == children_of(g, order[i]).len(),
    ensures
        growing(maps, g, order, i + 1, 0, tree, claimed),
{
    lemma_order_moves(g, order, i, m);
    assert forall|k: int| 0 <= k < order.len() implies row_placed(
        maps,
        g,
        #[trigger] order[k],
        placed_children(g, order, i + 1, 0, k),
        tree,
    ) by {
        assert(row_placed(maps, g, order[k], placed_children(g, order, i, m, k), tree));
        assert(placed_children(g, order, i + 1, 0, k) =~= placed_children(g, order, i, m, k));
    }
}

/// The properties of a row that entered the tree.
proof fn lemma_admitted(
    maps: RefMaps,
    node: NodeModel,
    brought: Map<Text, Variant>,
    claimed: Set<u128>,
    kept: Map<Text, Variant>,
    after: Set<u128>,
)
    requires
        holds_properties(maps, node.properties, brought),
        dom::admitted(brought, claimed, kept, after),
    ensures
        nearly_holds(maps, node, kept),
        (row_id(node) matches Some(u) ==> !claimed.contains(u)) ==> kept == brought && (match row_id(
            node,
        ) {
            Some(u) => after == claimed.insert(u),
            None => after == claimed,
        }),
{
    lemma_brought_id(maps, node, brought);
    if kept == brought {
        assert(same_but_id(node, brought, kept));
    } else {
        let fresh = choose|fresh: Variant| #[trigger]
            dom::is_fresh_id(brought, claimed, kept, after, fresh);
        assert(kept == brought.insert(dom::unique_id_key(), fresh));
        assert(same_but_id(node, brought, kept));
    }
}

/// The unique ids after a row has entered the tree.
proof fn lemma_ids_grow(
    maps: RefMaps,
    g: GraphModel,
    order: Seq<usize>,
    c: usize,
    before: Forest,
    claimed: Set<u128>,
    brought: Map<Text, Variant>,
    tree: Forest,
    after: Set<u128>,
)
    requires
        ids_kept(g, order, before, claimed),
        ({
            let node = g[c as int]->0;
            &&& holds_properties(maps, node.properties, brought)
            &&& tree.instances.contains_key(node.referent)
            &&& forall|r: u128| #[trigger]
                before.instances.contains_key(r) ==> tree.instances.contains_key(r)
                    && tree.instances[r].properties == before.instances[r].properties
            &&& dom::admitted(brought, claimed, tree.instances[node.referent].properties, after)
        }),
    ensures
        ids_kept(g, order.push(c), tree, after),
{
    let node = g[c as int]->0;
    let kept = tree.instances[node.referent].properties;
    let next = order.push(c);
    lemma_brought_id(maps, node, brought);
    assert forall|u: u128| #[trigger] after.contains(u) implies has_id(tree, u) by {
        if claimed.contains(u) {
            assert(has_id(before, u));
            let x = choose|x: u128|
                before.instances.contains_key(x) && dom::brought_id(
                    (#[trigger] before.instances[x]).properties,
                ) == Some(u);
            assert(tree.instances[x].properties == before.instances[x].properties);
        } else if kept == brought {
            assert(dom::brought_id(tree.instances[node.referent].properties) == Some(u));
        } else {
            let fresh = choose|fresh: Variant| #[trigger]
                dom::is_fresh_id(brought, claimed, kept, after, fresh);
            assert(kept[dom::unique_id_key()] == fresh);
            assert(dom::brought_id(tree.instances[node.referent].properties) == Some(u));
        }
    }
    assert forall|k: int| 0 <= k < next.len() implies (row_id(g[#[trigger] next[k] as int]->0) matches Some(u)
        ==> after.contains(u)) by {
        if k < order.len() {
            assert(next[k] == order[k]);
        }
    }
}

/// A row that enters the tree.
#[verifier::rlimit(40)]
proof fn lemma_grows(
    maps: RefMaps,
    g: GraphModel,
    order: Seq<usize>,
    i: int,
    m: int,
    before: Forest,
    claimed: Set<u128>,
    brought: Map<Text, Variant>,
    tree: Forest,
    after: Set<u128>,
)
    requires
        ready(g),
        growing(maps, g, order, i, m, before, claimed),
        i < order.len(),
        m < children_of(g, order[i]).len(),
        ({
            let c = children_of(g, order[i])[m];
            let node = g[c as int]->0;
            let parent = g[order[i] as int]->0.referent;
            &&& holds_properties(maps, node.properties, brought)
            &&& tree.root == before.root
            &&& tree.instances.dom() == before.instances.dom().insert(node.referent)
            &&& forall|r: u128| #[trigger]
                before.instances.contains_key(r) && r != parent ==> tree.instances[r]
                    == before.instances[r]
            &&& tree.instances[parent] == (RawModel {
                children: before.instances[parent].children.push(node.referent),
                ..before.instances[parent]
            })
            &&& tree.instances[node.referent].class == node.class
            &&& tree.instances[node.referent].name == node.name
            &&& tree.instances[node.referent].children == Seq::<u128>::empty()
            &&& dom::admitted(brought, claimed, tree.instances[node.referent].properties, after)
        }),
    ensures
        growing(maps, g, order.push(children_of(g, order[i])[m]), i, m + 1, tree, after),
{
    let list = children_of(g, order[i]);
    let c = list[m];
    let node = g[c as int]->0;
    let parent = g[order[i] as int]->0.referent;
    let next = order.push(c);
    lemma_child_is_new(g, order, i, m);
    lemma_order_grows(g, order, i, m);
    lemma_admitted(
        maps,
        node,
        brought,
        claimed,
        tree.instances[node.referent].properties,
        after,
    );
    assert(next[order.len() as int] == c);
    assert(row_placed(maps, g, order[i], placed_children(g, order, i, m, i), before));
    lemma_ids_grow(maps, g, order, c, before, claimed, brought, tree, after);
    assert forall|x: u128| #[trigger] tree.instances.contains_key(x) <==> in_order(g, next, x) by {
        assert(tree.instances.contains_key(x) <==> before.instances.contains_key(x) || x
            == node.referent);
        assert(before.instances.contains_key(x) <==> in_order(g, order, x));
        if in_order(g, order, x) {
            let k = choose|k: int|
                0 <= k < order.len() && g[#[trigger] order[k] as int]->0.referent == x;
            assert(next[k] == order[k]);
        }
        if in_order(g, next, x) {
            let k = choose|k: int|
                0 <= k < next.len() && g[#[trigger] next[k] as int]->0.referent == x;
            if k < order.len() {
                assert(next[k] == order[k]);
                assert(in_order(g, order, x));
            }
        }
        if x == node.referent {
            assert(g[next[order.len() as int] as int]->0.referent == x);
        }
    }
    if ids_distinct(g) {
        if let Some(u) = row_id(node) {
            if claimed.contains(u) {
                assert(id_in_order(g, order, u));
                let k = choose|k: int|
                    0 <= k < order.len() && row_id(g[#[trigger] order[k] as int]->0) == Some(u);
                assert(survives(g, order[k]));
                assert(order.contains(order[k]));
                let r = order[k] as int;
                let s = c as int;
                assert(r != s);
                assert(g[r] is Some && g[s] is Some);
                if r < s {
                    assert(row_id(g[r]->0) != row_id(g[s]->0));
                } else {
                    assert(row_id(g[s]->0) != row_id(g[r]->0));
                }
            }
        }
        assert(tree.instances[node.referent].properties == brought);
        assert forall|u: u128| #[trigger] after.contains(u) <==> id_in_order(g, next, u) by {
            assert(claimed.contains(u) <==> id_in_order(g, order, u));
            if id_in_order(g, order, u) {
                let k = choose|k: int|
                    0 <= k < order.len() && row_id(g[#[trigger] order[k] as int]->0) == Some(u);
                assert(next[k] == order[k]);
            }
            if id_in_order(g, next, u) {
                let k = choose|k: int|
                    0 <= k < next.len() && row_id(g[#[trigger] next[k] as int]->0) == Some(u);
                if k < order.len() {
                    assert(next[k] == order[k]);
                    assert(id_in_order(g, order, u));
                }
            }
            if row_id(node) == Some(u) {
                assert(row_id(g[next[order.len() as int] as int]->0) == Some(u));
            }
        }
    }
    assert forall|k: int| 0 <= k < next.len() implies row_placed(
        maps,
        g,
        #[trigger] next[k],
        placed_children(g, next, i, m + 1, k),
        tree,
    ) by {
        if k == order.len() {
            assert(referents(g, Seq::<usize>::empty()) =~= Seq::<u128>::empty());
        } else {
            assert(next[k] == order[k]);
            assert(row_placed(maps, g, order[k], placed_children(g, order, i, m, k), before));
            let x = g[order[k] as int]->0.referent;
            assert(before.instances.contains_key(x));
            assert(x != node.referent) by {
                assert(in_order(g, order, x));
            }
            if k == i {
                let a = list.take(m);
                let b = list.take(m + 1);
                assert(b =~= a.push(c));
                assert(referents(g, b) =~= referents(g, a).push(node.referent));
                assert(x == parent);
            } else {
                assert(survives(g, order[k]) && survives(g, order[i]));
                let r = order[k] as int;
                let s = order[i] as int;
                assert(order[k] != order[i]);
                assert(g[r] is Some && g[s] is Some);
                assert(x != parent) by {
                    if r < s {
                        assert(g[r]->0.referent != g[s]->0.referent);
                    } else {
                        assert(g[s]->0.referent != g[r]->0.referent);
                    }
                }
                assert(placed_children(g, next, i, m + 1, k) == placed_children(g, order, i, m, k));
                assert(tree.instances[x] == before.instances[x]);
            }
        }
    }
}

/// Every row in the tree is one that the root leads to.
proof fn lemma_order_reached(g: GraphModel, order: Seq<usize>, i: int, m: int, k: int)
    requires
        order_ok(g, order, i, m),
        g[0] is Some,
        g.len() > 0,
        0 <= k < order.len(),
    ensures
        reached(g, order[k]),
    decreases k,
{
    assert(survives(g, order[k]));
    if k == 0 {
        assert(reaches_root(g, order[k], 0));
    } else {
        assert(comes_after_parent(g, order, i, m, k));
        let j = choose|j: int|
            0 <= j < k && j <= i && g[order[k] as int]->0.parent == Some(#[trigger] order[j]) && (j
                == i ==> children_of(g, order[i]).take(m).contains(order[k]));
        lemma_order_reached(g, order, i, m, j);
        let steps = choose|steps: nat| #[trigger] reaches_root(g, order[j], steps);
        assert(reaches_root(g, order[k], steps + 1));
    }
}

/// Every row that the root leads to is in the tree in the end.
proof fn lemma_reached_in_order(g: GraphModel, order: Seq<usize>, r: usize, steps: nat)
    requires
        ready(g),
        order_ok(g, order, order.len() as int, 0),
        reaches_root(g, r, steps),
    ensures
        order.contains(r),
    decreases steps,
{
    if steps == 0 {
        assert(order[0] == r);
    } else {
        let p = g[r as int]->0.parent->0;
        lemma_reached_in_order(g, order, p, (steps - 1) as nat);
        let j = order.index_of(p);
        assert(survives(g, order[j]));
        assert(g[p as int] is Some);
        assert(children_complete(g, p as int));
        assert(child_order::is_under(g, p, r));
        assert(children_of(g, order[j]).contains(r));
    }
}

proof fn lemma_built(
    maps: RefMaps,
    g: GraphModel,
    order: Seq<usize>,
    tree: Forest,
    claimed: Set<u128>,
)
    requires
        ready(g),
        growing(maps, g, order, order.len() as int, 0, tree, claimed),
    ensures
        built(maps, g, tree),
{
    let n = order.len() as int;
    assert forall|r: usize| #[trigger] reached(g, r) implies row_built(maps, g, r, tree) by {
        let steps = choose|steps: nat| #[trigger] reaches_root(g, r, steps);
        lemma_reached_in_order(g, order, r, steps);
        let k = order.index_of(r);
        assert(row_placed(maps, g, order[k], placed_children(g, order, n, 0, k), tree));
        assert(row_id(g[order[k] as int]->0) matches Some(u) ==> claimed.contains(u));
    }
    assert forall|x: u128| #[trigger] tree.instances.contains_key(x) implies exists|r: usize|
        #[trigger]
        reached(g, r) && g[r as int]->0.referent == x by {
        assert(in_order(g, order, x));
        let k = choose|k: int|
            0 <= k < order.len() && g[#[trigger] order[k] as int]->0.referent == x;
        lemma_order_reached(g, order, n, 0, k);
    }
}

proof fn lemma_starts(
    maps: RefMaps,
    g: GraphModel,
    brought: Map<Text, Variant>,
    tree: Forest,
    claimed: Set<u128>,
)
    requires
        ready(g),
        holds_properties(maps, g[0]->0.properties, brought),
        tree.root == g[0]->0.referent,
        tree.instances == Map::<u128, RawModel>::empty().insert(
            g[0]->0.referent,
            (RawModel {
                class: g[0]->0.class,
                name: g[0]->0.name,
                children: Seq::empty(),
                properties: brought,
            }),
        ),
        dom::admitted(brought, Set::empty(), brought, claimed),
    ensures
        growing(maps, g, seq![0usize], 0, 0, tree, claimed),
{
    let order = seq![0usize];
    let node = g[0]->0;
    lemma_admitted(maps, node, brought, Set::empty(), brought, claimed);
    assert forall|x: u128| #[trigger] tree.instances.contains_key(x) <==> in_order(g, order, x) by {
        if x == node.referent {
            assert(g[order[0] as int]->0.referent == x);
        }
    }
    assert forall|u: u128| #[trigger] claimed.contains(u) <==> id_in_order(g, order, u) by {
        if row_id(node) == Some(u) {
            assert(row_id(g[order[0] as int]->0) == Some(u));
        }
    }
    assert(ids_kept(g, order, tree, claimed)) by {
        lemma_brought_id(maps, node, brought);
        assert forall|u: u128| #[trigger] claimed.contains(u) implies has_id(tree, u) by {
            assert(dom::brought_id(tree.instances[node.referent].properties) == Some(u));
        }
    }
    assert(children_of(g, order[0]).take(0) =~= Seq::<usize>::empty());
    assert(referents(g, Seq::<usize>::empty()) =~= Seq::<u128>::empty());
    assert(row_placed(maps, g, order[0], placed_children(g, order, 0, 0, 0), tree));
}

/// Makes the root of the tree.
fn start_tree(graph: &MergedGraph, refs: &BuildRefMaps) -> (res: WeakDom)
    requires
        ready(graph@),
    ensures
        growing(refs@, graph@, seq![0usize], 0, 0, dom::forest(res), dom::claimed_ids(res)),
{
    match graph.get(0) {
        Some(node) => {
            let properties = build_properties(node, refs);
            let ghost brought = dom::map_of(dom::property_list(properties@));
            let tree = new_tree(
                node.referent,
                node.class.as_str(),
                node.name.as_str(),
                properties,
            );
            proof {
                lemma_starts(
                    refs@,
                    graph@,
                    brought,
                    dom::forest(tree),
                    dom::claimed_ids(tree),
                );
            }
            tree
        },
        None => new_tree(1, "", "", Vec::new()),
    }
}

/// Adds the next child to the tree.
fn add_child(
    graph: &MergedGraph,
    refs: &BuildRefMaps,
    tree: &mut WeakDom,
    parent: &MergedInstance,
    m: usize,
    Ghost(order): Ghost<Seq<usize>>,
    Ghost(i): Ghost<int>,
)
    requires
        ready(graph@),
        growing(
            refs@,
            graph@,
            order,
            i,
            m as int,
            dom::forest(*old(tree)),
            dom::claimed_ids(*old(tree)),
        ),
        i < order.len(),
        graph@[order[i] as int] == Some(parent@),
        m < parent@.children.len(),
    ensures
        growing(
            refs@,
            graph@,
            order.push(parent@.children[m as int]),
            i,
            m + 1,
            dom::forest(*final(tree)),
            dom::claimed_ids(*final(tree)),
        ),
{
    let ghost g = graph@;
    let ghost before = dom::forest(*tree);
    let ghost claimed = dom::claimed_ids(*tree);
    let child: usize = parent.children[m];
    proof {
        lemma_child_is_new(g, order, i, m as int);
        assert(survives(g, order[i]));
        assert(row_placed(refs@, g, order[i], placed_children(g, order, i, m as int, i), before));
    }
    if let Some(node) = graph.get(child) {
        proof {
            assert(g[child as int] is Some);
        }
        let properties = build_properties(node, refs);
        let ghost brought = dom::map_of(dom::property_list(properties@));
        insert_instance(
            tree,
            parent.referent,
            node.referent,
            node.class.as_str(),
            node.name.as_str(),
            properties,
        );
        proof {
            lemma_grows(
                refs@,
                g,
                order,
                i,
                m as int,
                before,
                claimed,
                brought,
                dom::forest(*tree),
                dom::claimed_ids(*tree),
            );
        }
    }
}

/// Builds the tree that the root leads to, level by level.
pub fn build_weak_dom(ctx: &MergeCtx, graph: &MergedGraph) -> (res: WeakDom)
    requires
        ctx.wf(),
        graph@.len() == ctx@.rows.entries.len(),
        ready(graph@),
    ensures
        built(
            final_refs(ctx@, graph@, graph@.len() as int),
            graph@,
            dom::forest(res),
        ),
{
    let refs = BuildRefMaps::new(ctx, graph);
    let mut tree = start_tree(graph, &refs);
    let mut order: Vec<usize> = Vec::new();
    order.push(0);
    assert(order@ =~= seq![0usize]);
    let mut i: usize = 0;
    while i < order.len()
        invariant
            i <= order.len(),
            ready(graph@),
            growing(
                refs@,
                graph@,
                order@,
                i as int,
                0,
                dom::forest(tree),
                dom::claimed_ids(tree),
            ),
        decreases graph@.len() - i,
    {
        proof {
            lemma_order_length(graph@, order@, i as int, 0);
            assert(survives(graph@, order@[i as int]));
        }
        let row: usize = order[i];
        if let Some(parent) = graph.get(row) {
            let mut m: usize = 0;
            while m < parent.children.len()
                invariant
                    m <= parent.children.len(),
                    i < order.len(),
                    row == order@[i as int],
                    ready(graph@),
                    graph@[row as int] == Some(parent@),
                    growing(
                        refs@,
                        graph@,
                        order@,
                        i as int,
                        m as int,
                        dom::forest(tree),
                        dom::claimed_ids(tree),
                    ),
                decreases parent.children.len() - m,
            {
                add_child(graph, &refs, &mut tree, parent, m, Ghost(order@), Ghost(i as int));
                order.push(parent.children[m]);
                m += 1;
            }
            proof {
                lemma_moves(
                    refs@,
                    graph@,
                    order@,
                    i as int,
                    m as int,
                    dom::forest(tree),
                    dom::claimed_ids(tree),
                );
            }
        }
        i += 1;
    }
    proof {
        lemma_built(refs@, graph@, order@, dom::forest(tree), dom::claimed_ids(tree));
    }
    tree
}

} // verus!
