//! The tree of a file, independent of its format: every instance has a dense id
//! in document order.

use std::collections::HashMap;

use indexmap::IndexMap;
use rbx_dom_weak::WeakDom;
use rbx_types::Variant;
use vstd::prelude::*;

use crate::dom;
use crate::dom::{get_instance, root_referent};
use crate::error::{Error, ErrorModel};
use crate::keyed;
use crate::keyed::{find, insert_entry};
use crate::text;
use crate::text::{hex_string, join_strings, Text};
use crate::value;
use crate::value::{read_unique_id, value_from_variant, Value, ValueModel};

verus! {

broadcast use vstd::std_specs::hash::group_hash_axioms;

/// Which side of a merge a value comes from. A merged attribute map comes from
/// none of the three.
#[derive(Debug, Clone, Copy, PartialEq, Eq, Hash, Structural)]
pub enum ValueSource {
    Base,
    Ours,
    Theirs,
    Merged,
}

/// One instance of a file. Its properties are sorted by name.
pub struct SemanticInstance {
    pub source_ref: u128,
    pub class: String,
    pub name: String,
    pub parent: Option<usize>,
    pub children: Vec<usize>,
    pub properties: Vec<(String, Value)>,
}

/// The mathematical counterpart of [`SemanticInstance`].
#[verifier::ext_equal]
pub ghost struct InstanceModel {
    pub source_ref: u128,
    pub class: Text,
    pub name: Text,
    pub parent: Option<usize>,
    pub children: Seq<usize>,
    pub properties: Seq<(Text, ValueModel)>,
}

impl View for SemanticInstance {
    type V = InstanceModel;

    open spec fn view(&self) -> InstanceModel {
        InstanceModel {
            source_ref: self.source_ref,
            class: self.class@,
            name: self.name@,
            parent: self.parent,
            children: self.children@,
            properties: keyed::view_list(self.properties@),
        }
    }
}

/// The instances of a file by their ids; the root is the first.
pub type DomModel = Seq<InstanceModel>;

/// The instances of a file, and the ids by their referents.
pub struct SemanticDom {
    pub nodes: IndexMap<usize, SemanticInstance>,
    pub ref_to_node: HashMap<u128, usize>,
}

/// What a map of instances holds.
pub uninterp spec fn semantic_nodes(nodes: IndexMap<usize, SemanticInstance>) -> Map<
    usize,
    SemanticInstance,
>;

/// A map of no instances.
///
/// Trusted: `IndexMap::new` holds nothing.
#[verifier::external_body]
fn no_instances() -> (res: IndexMap<usize, SemanticInstance>)
    ensures
        semantic_nodes(res).dom() == Set::<usize>::empty(),
{
    IndexMap::new()
}

/// Adds an instance, or replaces it.
///
/// Trusted: `IndexMap::insert` leaves every other entry as it is.
#[verifier::external_body]
fn put_instance(nodes: &mut IndexMap<usize, SemanticInstance>, id: usize, instance: SemanticInstance)
    ensures
        semantic_nodes(*final(nodes)) == semantic_nodes(*old(nodes)).insert(id, instance),
{
    nodes.insert(id, instance);
}

/// Finds an instance.
///
/// Trusted: `IndexMap::get` finds the entry of the key.
#[verifier::external_body]
fn find_instance(nodes: &IndexMap<usize, SemanticInstance>, id: usize) -> (res: Option<
    &SemanticInstance,
>)
    ensures
        match res {
            Some(instance) => semantic_nodes(*nodes).contains_key(id) && semantic_nodes(*nodes)[id]
                == *instance,
            None => !semantic_nodes(*nodes).contains_key(id),
        },
{
    nodes.get(&id)
}

/// Lends an instance out for a change.
///
/// Trusted: `IndexMap::get_mut` lends the entry of the key and leaves every other
/// entry as it is.
#[verifier::external_body]
fn lend_instance(nodes: &mut IndexMap<usize, SemanticInstance>, id: usize) -> (res:
    &mut SemanticInstance)
    requires
        semantic_nodes(*old(nodes)).contains_key(id),
    ensures
        *res == semantic_nodes(*old(nodes))[id],
        semantic_nodes(*final(nodes)) == semantic_nodes(*old(nodes)).insert(id, *final(res)),
{
    nodes.get_mut(&id).unwrap()
}

/// How many instances there are.
///
/// Trusted: `IndexMap::len` counts the entries.
#[verifier::external_body]
fn count_instances(nodes: &IndexMap<usize, SemanticInstance>) -> (res: usize)
    ensures
        res == semantic_nodes(*nodes).dom().len(),
{
    nodes.len()
}

/// Whether the ids are the numbers up to how many instances there are.
pub open spec fn is_numbered(nodes: Map<usize, SemanticInstance>) -> bool {
    &&& nodes.dom().finite()
    &&& forall|i: usize| #[trigger] nodes.contains_key(i) <==> i < nodes.dom().len()
}

/// The instances by their ids, where they are numbered.
pub open spec fn instances_view(nodes: Map<usize, SemanticInstance>) -> DomModel {
    if is_numbered(nodes) {
        Seq::new(nodes.dom().len(), |i: int| nodes[i as usize]@)
    } else {
        Seq::empty()
    }
}

/// The instances that a map holds, by their ids.
pub open spec fn table(nodes: IndexMap<usize, SemanticInstance>) -> DomModel {
    instances_view(semantic_nodes(nodes))
}

/// An instance with the next number is the last.
proof fn lemma_put_next(nodes: Map<usize, SemanticInstance>, id: usize, instance: SemanticInstance)
    requires
        is_numbered(nodes),
        id == nodes.dom().len(),
    ensures
        is_numbered(nodes.insert(id, instance)),
        instances_view(nodes.insert(id, instance)) == instances_view(nodes).push(instance@),
{
    let more = nodes.insert(id, instance);
    assert(!nodes.contains_key(id));
    assert(more.dom() =~= nodes.dom().insert(id));
    assert(instances_view(more) =~= instances_view(nodes).push(instance@));
}

/// An instance in the place of another.
proof fn lemma_put_again(nodes: Map<usize, SemanticInstance>, id: usize, instance: SemanticInstance)
    requires
        is_numbered(nodes),
        id < nodes.dom().len() <= usize::MAX,
    ensures
        is_numbered(nodes.insert(id, instance)),
        instances_view(nodes.insert(id, instance)) == instances_view(nodes).update(
            id as int,
            instance@,
        ),
{
    let other = nodes.insert(id, instance);
    assert(nodes.contains_key(id));
    assert(other.dom() =~= nodes.dom());
    assert(instances_view(other) =~= instances_view(nodes).update(id as int, instance@));
}

impl View for SemanticDom {
    type V = DomModel;

    open spec fn view(&self) -> DomModel {
        table(self.nodes)
    }
}

/// The links of the instances from `lo` up to `hi` form one tree, whose root is
/// `lo` with the parent `parent`.
#[verifier::opaque]
pub open spec fn links_wf(d: DomModel, lo: int, hi: int, parent: Option<usize>) -> bool {
    &&& 0 <= lo < hi <= d.len()
    &&& d[lo].parent == parent
    &&& forall|i: int|
        lo < i < hi ==> (#[trigger] d[i]).parent is Some && lo <= d[i].parent->0 < i
            && d[d[i].parent->0 as int].children.contains(i as usize)
    &&& forall|p: int, j: int|
        lo <= p < hi && 0 <= j < d[p].children.len() ==> {
            let c = #[trigger] d[p].children[j];
            p < c < hi && d[c as int].parent == Some(p as usize)
        }
    &&& forall|p: int, j: int, k: int|
        lo <= p < hi && 0 <= j < k < d[p].children.len() ==> (#[trigger] d[p].children[j]) < (
        #[trigger] d[p].children[k])
}

/// Whether `a` is `n` or an ancestor of it.
pub open spec fn ancestor_or_self(d: DomModel, a: int, n: int) -> bool
    decreases n,
{
    a == n || (0 < n < d.len() && d[n].parent is Some && d[n].parent->0 < n && ancestor_or_self(
        d,
        a,
        d[n].parent->0 as int,
    ))
}

/// Document order: an instance follows its parent or the last descendant of an
/// elder sibling.
pub open spec fn document_order(d: DomModel, lo: int, hi: int) -> bool {
    forall|i: int|
        lo < i < hi ==> ancestor_or_self(d, (#[trigger] d[i]).parent->0 as int, i - 1)
}

/// No two instances have the same referent.
pub open spec fn distinct_refs(d: DomModel) -> bool {
    forall|i: int, j: int|
        0 <= i < j < d.len() ==> (#[trigger] d[i]).source_ref != (#[trigger] d[j]).source_ref
}

/// Property lists are sorted and their values are well-formed.
pub open spec fn properties_wf(properties: Seq<(Text, ValueModel)>) -> bool {
    &&& keyed::sorted(properties)
    &&& forall|i: int| 0 <= i < properties.len() ==> value::value_wf((#[trigger] properties[i]).1)
}

/// The invariant of a file's tree.
pub open spec fn dom_wf(d: DomModel) -> bool {
    &&& 0 < d.len() <= usize::MAX
    &&& d[0].parent is None
    &&& links_wf(d, 0, d.len() as int, None)
    &&& document_order(d, 0, d.len() as int)
    &&& distinct_refs(d)
    &&& forall|i: int| 0 <= i < d.len() ==> properties_wf((#[trigger] d[i]).properties)
}

/// Instance `i` is the instance of its referent in the tree that was read.
pub open spec fn represents_at(d: DomModel, i: int, tree: dom::Forest) -> bool {
    let node = d[i];
    let raw = tree.instances[node.source_ref];
    &&& tree.instances.contains_key(node.source_ref)
    &&& node.class == raw.class
    &&& node.name == raw.name
    &&& node.children.len() == raw.children.len()
    &&& forall|j: int|
        0 <= j < node.children.len() ==> d[#[trigger] node.children[j] as int].source_ref
            == raw.children[j]
    &&& represents_properties(node.properties, raw.properties)
}

/// A property list holds the values of a map.
pub open spec fn represents_properties(
    list: Seq<(Text, ValueModel)>,
    map: Map<Text, Variant>,
) -> bool {
    &&& properties_wf(list)
    &&& forall|k: Text| #[trigger]
        keyed::lookup(list, k) == (if map.contains_key(k) {
            Some(value::value_of(map[k]))
        } else {
            None
        })
}

/// The ids number the instances that the root of `tree` leads to, in document
/// order.
pub open spec fn represents(d: DomModel, tree: dom::Forest) -> bool {
    &&& dom_wf(d)
    &&& d[0].source_ref == tree.root
    &&& forall|i: int| 0 <= i < d.len() ==> #[trigger] represents_at(d, i, tree)
}

/// Every child is an instance, and every instance but the root is the child of
/// one instance at most, in one place.
pub open spec fn tree_links(tree: dom::Forest) -> bool {
    &&& tree.instances.contains_key(tree.root)
    &&& forall|r: u128, j: int|
        tree.instances.contains_key(r) && 0 <= j < tree.instances[r].children.len() ==> {
            let c = #[trigger] tree.instances[r].children[j];
            tree.instances.contains_key(c) && c != tree.root
        }
    &&& forall|r: u128, j: int, s: u128, k: int|
        tree.instances.contains_key(r) && 0 <= j < tree.instances[r].children.len()
            && tree.instances.contains_key(s) && 0 <= k < tree.instances[s].children.len()
            && #[trigger] tree.instances[r].children[j] == #[trigger] tree.instances[s].children[k]
            ==> r == s && j == k
}

/// Whether `c` is child number `j` of `r`.
pub open spec fn is_child_at(tree: dom::Forest, r: u128, j: int, c: u128) -> bool {
    &&& tree.instances.contains_key(r)
    &&& 0 <= j < tree.instances[r].children.len()
    &&& tree.instances[r].children[j] == c
}

/// Whether the link to `c` breaks a tree: `c` is the root or a child but no
/// instance, or it is both the root and a child, or a child in two places.
pub open spec fn is_bad_link(tree: dom::Forest, c: u128) -> bool {
    ||| c == tree.root && !tree.instances.contains_key(c)
    ||| exists|r: u128, j: int| #[trigger]
        is_child_at(tree, r, j, c) && (c == tree.root || !tree.instances.contains_key(c))
    ||| exists|r: u128, j: int, s: u128, k: int| #[trigger]
        is_child_at(tree, r, j, c) && #[trigger] is_child_at(tree, s, k, c) && (r != s || j != k)
}

/// The error about a referent that leads to no instance of its own.
pub open spec fn unresolved(referent: u128) -> ErrorModel {
    ErrorModel::Internal(
        "WeakDom child referent "@ + text::hex_digits(referent as nat, 32) + " did not resolve"@,
    )
}

/// Whether the links are not those of a tree, and the error says which one breaks it.
pub open spec fn link_failure(tree: dom::Forest, e: ErrorModel) -> bool {
    &&& !tree_links(tree)
    &&& exists|c: u128| #[trigger] is_bad_link(tree, c) && e == unresolved(c)
}

/// The instance of a referent.
pub open spec fn node_of_ref(d: DomModel, referent: u128) -> Option<usize> {
    if exists|i: int| 0 <= i < d.len() && (#[trigger] d[i]).source_ref == referent {
        Some((choose|i: int| 0 <= i < d.len() && (#[trigger] d[i]).source_ref == referent) as usize)
    } else {
        None
    }
}

pub proof fn lemma_node_of_ref(d: DomModel, i: int)
    requires
        d.len() <= usize::MAX,
        distinct_refs(d),
        0 <= i < d.len(),
    ensures
        node_of_ref(d, d[i].source_ref) == Some(i as usize),
{
    let r = d[i].source_ref;
    let k = choose|k: int| 0 <= k < d.len() && (#[trigger] d[k]).source_ref == r;
    assert(d[i].source_ref == r);
    if k < i {
        assert(d[k].source_ref != d[i].source_ref);
    } else if i < k {
        assert(d[i].source_ref != d[k].source_ref);
    }
}

pub proof fn lemma_node_of_ref_some(d: DomModel, referent: u128)
    requires
        d.len() <= usize::MAX,
        node_of_ref(d, referent) is Some,
    ensures
        node_of_ref(d, referent)->0 < d.len(),
        d[node_of_ref(d, referent)->0 as int].source_ref == referent,
{
}

/// The names from the child of the root down to an instance.
pub open spec fn path_names(d: DomModel, id: int) -> Seq<Text>
    decreases id,
{
    if id <= 0 || id >= d.len() {
        Seq::empty()
    } else {
        match d[id].parent {
            Some(p) if p < id => path_names(d, p as int).push(d[id].name),
            _ => seq![d[id].name],
        }
    }
}

/// The dotted path of an instance; that of the root is `<root>`.
pub open spec fn dom_path(d: DomModel, id: int) -> Text {
    if id == 0 {
        "<root>"@
    } else {
        text::join(path_names(d, id), "."@)
    }
}

/// The unique id of an instance, unless it is nil.
pub open spec fn node_unique_id(node: InstanceModel) -> Option<u128> {
    match keyed::lookup(node.properties, dom::unique_id_key()) {
        Some(v) => match value::unique_id_value(v) {
            Some(u) if u != 0 => Some(u),
            _ => None,
        },
        None => None,
    }
}

proof fn lemma_ancestor_prefix(d: DomModel, e: DomModel, a: int, n: int)
    requires
        0 <= n < d.len(),
        n < e.len(),
        forall|i: int| 0 <= i <= n ==> (#[trigger] d[i]).parent == e[i].parent,
        ancestor_or_self(d, a, n),
    ensures
        ancestor_or_self(e, a, n),
    decreases n,
{
    if a != n {
        assert(d[n].parent == e[n].parent);
        lemma_ancestor_prefix(d, e, a, d[n].parent->0 as int);
    }
}

proof fn lemma_ancestor_transitive(d: DomModel, a: int, b: int, n: int)
    requires
        ancestor_or_self(d, a, b),
        ancestor_or_self(d, b, n),
    ensures
        ancestor_or_self(d, a, n),
    decreases n,
{
    if b != n {
        lemma_ancestor_transitive(d, a, b, d[n].parent->0 as int);
    }
}

proof fn lemma_root_is_ancestor(d: DomModel, lo: int, hi: int, parent: Option<usize>, n: int)
    requires
        links_wf(d, lo, hi, parent),
        lo <= n < hi,
    ensures
        ancestor_or_self(d, lo, n),
    decreases n,
{
    reveal(links_wf);
    if n > lo {
        assert(d[n].parent is Some);
        lemma_root_is_ancestor(d, lo, hi, parent, d[n].parent->0 as int);
    }
}

impl SemanticDom {
    /// The invariant: the tree is well-formed, and the index finds the instance
    /// of every referent.
    pub open spec fn wf(&self) -> bool {
        &&& dom_wf(self@)
        &&& index_wf(self@, self.ref_to_node@)
    }
}

pub open spec fn index_wf(d: DomModel, index: Map<u128, usize>) -> bool {
    &&& forall|i: int|
        0 <= i < d.len() ==> index.contains_key((#[trigger] d[i]).source_ref)
            && index[d[i].source_ref] == i
    &&& forall|r: u128| #[trigger]
        index.contains_key(r) ==> index[r] < d.len() && d[index[r] as int].source_ref == r
}

/// Sorts the properties of an instance and opens them up.
fn property_values(list: &Vec<(String, Variant)>, Ghost(map): Ghost<Map<Text, Variant>>) -> (res:
    Vec<(String, Value)>)
    requires
        dom::lists_map(dom::property_list(list@), map),
    ensures
        represents_properties(keyed::view_list(res@), map),
{
    let ghost entries = dom::property_list(list@);
    let mut out: Vec<(String, Value)> = Vec::new();
    let mut i: usize = 0;
    while i < list.len()
        invariant
            i <= list.len(),
            entries == dom::property_list(list@),
            dom::lists_map(entries, map),
            properties_wf(keyed::view_list(out@)),
            forall|k: Text| #[trigger]
                keyed::lookup(keyed::view_list(out@), k) == (match keyed::lookup(
                    entries.take(i as int),
                    k,
                ) {
                    Some(v) => Some(value::value_of(v)),
                    None => None,
                }),
        decreases list.len() - i,
    {
        let ghost before = keyed::view_list(out@);
        let ghost seen = entries.take(i as int);
        let ghost more = entries.take(i + 1);
        let ghost key = list@[i as int].0@;
        let ghost entry = entries[i as int];
        proof {
            assert(entry == (key, list@[i as int].1));
            assert forall|j: int| 0 <= j < seen.len() implies (#[trigger] seen[j]).0 != key by {
                assert(entries[j].0 != entries[i as int].0);
            }
            keyed::lemma_lookup_none(seen, key);
            assert(keyed::lookup(before, key) is None);
        }
        let opened = value_from_variant(&list[i].1);
        insert_entry(&mut out, list[i].0.clone(), opened);
        i += 1;
        proof {
            let after = keyed::view_list(out@);
            assert forall|k: Text| #[trigger] keyed::lookup(after, k) == (match keyed::lookup(
                more,
                k,
            ) {
                Some(v) => Some(value::value_of(v)),
                None => None,
            }) by {
                assert(more =~= seen.push(entry));
                if keyed::lookup(seen, k) is Some {
                    let j = keyed::lemma_lookup_some(seen, k);
                    assert forall|x: int| 0 <= x < j implies (#[trigger] more[x]).0 != k by {
                        assert(seen[x].0 != k);
                    }
                    assert(more[j] == seen[j]);
                    keyed::lemma_lookup_first(more, j);
                } else if k == key {
                    keyed::lemma_lookup_absent(seen, k);
                    assert forall|x: int| 0 <= x < seen.len() implies (#[trigger] more[x]).0
                        != k by {
                        assert(seen[x].0 != k);
                    }
                    assert(more[seen.len() as int] == entry);
                    keyed::lemma_lookup_first(more, seen.len() as int);
                } else {
                    keyed::lemma_lookup_absent(seen, k);
                    assert forall|x: int| 0 <= x < more.len() implies (#[trigger] more[x]).0
                        != k by {
                        if x < seen.len() {
                            assert(seen[x].0 != k);
                        }
                    }
                    keyed::lemma_lookup_none(more, k);
                }
            }
            assert forall|j: int| 0 <= j < after.len() implies value::value_wf(
                (#[trigger] after[j]).1,
            ) by {
                keyed::lemma_lookup_at(after, j);
                let k = after[j].0;
                if k != key {
                    assert(keyed::lookup(after, k) == keyed::lookup(before, k));
                    let x = keyed::lemma_lookup_some(before, k);
                    assert(value::value_wf(before[x].1));
                }
            }
        }
    }
    assert(entries.take(list.len() as int) =~= entries);
    out
}

/// Instance `i` is child number `j` of its parent in the tree that is read.
pub open spec fn is_place(d: DomModel, tree: dom::Forest, i: int, j: int) -> bool {
    &&& d[i].parent is Some
    &&& d[i].parent->0 < i
    &&& 0 <= j < tree.instances[d[d[i].parent->0 as int].source_ref].children.len()
    &&& tree.instances[d[d[i].parent->0 as int].source_ref].children[j] == d[i].source_ref
}

spec fn has_place(d: DomModel, tree: dom::Forest, i: int) -> bool {
    exists|j: int| is_place(d, tree, i, j)
}

/// Every instance so far is the root or a child of an earlier one.
spec fn reached(d: DomModel, tree: dom::Forest) -> bool {
    &&& d.len() > 0 ==> d[0].source_ref == tree.root && d[0].parent is None
    &&& forall|i: int| 0 < i < d.len() ==> #[trigger] has_place(d, tree, i)
    &&& forall|i: int| 0 <= i < d.len() ==> tree.instances.contains_key((#[trigger] d[i]).source_ref)
}

/// Where `referent` is reached next: as the root, or as child number `at` of
/// `parent`, whose earlier children are the only ones taken in so far.
spec fn next_place(
    d: DomModel,
    tree: dom::Forest,
    referent: u128,
    parent: Option<usize>,
    at: int,
) -> bool {
    match parent {
        None => d.len() == 0 && referent == tree.root,
        Some(p) => {
            &&& p < d.len()
            &&& 0 <= at < tree.instances[d[p as int].source_ref].children.len()
            &&& tree.instances[d[p as int].source_ref].children[at] == referent
            &&& forall|i: int|
                0 < i < d.len() && (#[trigger] d[i]).parent == parent ==> exists|j: int|
                    j < at && #[trigger] is_place(d, tree, i, j)
        },
    }
}

/// A referent that does not resolve, or that was reached before, shows that the
/// links are not those of a tree.
proof fn lemma_bad_link(
    d: DomModel,
    tree: dom::Forest,
    referent: u128,
    parent: Option<usize>,
    at: int,
    k: int,
)
    requires
        reached(d, tree),
        distinct_refs(d),
        next_place(d, tree, referent, parent, at),
        !tree.instances.contains_key(referent) || (0 <= k < d.len() && d[k].source_ref == referent),
    ensures
        is_bad_link(tree, referent),
        !tree_links(tree),
{
    if let Some(p) = parent {
        let r = d[p as int].source_ref;
        assert(tree.instances.contains_key(r));
        assert(is_child_at(tree, r, at, referent));
        if tree.instances.contains_key(referent) && k > 0 {
            let q = d[k].parent->0 as int;
            assert(has_place(d, tree, k));
            let j = if d[k].parent == parent {
                choose|j: int| j < at && #[trigger] is_place(d, tree, k, j)
            } else {
                choose|j: int| is_place(d, tree, k, j)
            };
            assert(is_place(d, tree, k, j));
            let s = d[q].source_ref;
            assert(is_child_at(tree, s, j, referent));
            if q < p {
                assert(d[q].source_ref != d[p as int].source_ref);
            } else if p < q {
                assert(d[p as int].source_ref != d[q].source_ref);
            }
        }
    }
}

proof fn lemma_index_distinct(d: DomModel, index: Map<u128, usize>)
    requires
        index_wf(d, index),
    ensures
        distinct_refs(d),
{
}

/// A new instance that resolves keeps every instance reached.
proof fn lemma_started(
    before: DomModel,
    d: DomModel,
    tree: dom::Forest,
    referent: u128,
    parent: Option<usize>,
    at: int,
)
    requires
        reached(before, tree),
        next_place(before, tree, referent, parent, at),
        tree.instances.contains_key(referent),
        d.len() == before.len() + 1,
        d.take(before.len() as int) == before,
        d.last().source_ref == referent,
        d.last().parent == parent,
    ensures
        reached(d, tree),
{
    let id = before.len() as int;
    assert forall|i: int| 0 <= i < id implies d[i] == before[i] by {
        assert(d.take(id)[i] == d[i]);
    }
    assert forall|i: int| 0 < i < d.len() implies #[trigger] has_place(d, tree, i) by {
        if i < id {
            assert(has_place(before, tree, i));
            let j = choose|j: int| is_place(before, tree, i, j);
            assert(is_place(d, tree, i, j));
        } else {
            assert(is_place(d, tree, i, at));
        }
    }
    assert forall|i: int| 0 <= i < d.len() implies tree.instances.contains_key(
        (#[trigger] d[i]).source_ref,
    ) by {
        if i < id {
            assert(d[i] == before[i]);
        }
    }
}

/// Distinct instances of a finite tree are at most as many as it holds.
proof fn lemma_visited(d: DomModel, tree: dom::Forest)
    requires
        reached(d, tree),
        distinct_refs(d),
        tree.instances.dom().finite(),
    ensures
        d.len() <= tree.instances.dom().len(),
{
    let refs = d.map_values(|n: InstanceModel| n.source_ref);
    assert(refs.no_duplicates()) by {
        assert forall|i: int, j: int| 0 <= i < refs.len() && 0 <= j < refs.len() && i != j implies
            refs[i] != refs[j] by {
            assert(refs[i] == d[i].source_ref && refs[j] == d[j].source_ref);
            if i < j {
                assert(d[i].source_ref != d[j].source_ref);
            } else {
                assert(d[j].source_ref != d[i].source_ref);
            }
        }
    }
    refs.unique_seq_to_set();
    assert(refs.to_set().subset_of(tree.instances.dom())) by {
        assert forall|r: u128| refs.to_set().contains(r) implies tree.instances.dom().contains(r) by {
            let i = choose|i: int| 0 <= i < refs.len() && refs[i] == r;
            assert(refs[i] == d[i].source_ref);
        }
    }
    vstd::set_lib::lemma_len_subset(refs.to_set(), tree.instances.dom());
}

/// The error about a referent that leads to no instance of its own.
pub(crate) fn link_error(referent: u128) -> (res: Error)
    ensures
        res@ == unresolved(referent),
{
    let mut message = "WeakDom child referent ".to_owned();
    message.append(hex_string(referent).as_str());
    message.append(" did not resolve");
    Error::Internal(message)
}

/// The state of taking in an instance `id` after its first children were taken
/// in: `children` are their ids, not yet noted down in the instance itself.
spec fn growing(
    d: DomModel,
    tree: dom::Forest,
    id: int,
    parent: Option<usize>,
    referent: u128,
    children: Seq<usize>,
) -> bool {
    let raw = tree.instances[referent];
    &&& 0 <= id < d.len() <= usize::MAX
    &&& tree.instances.contains_key(referent)
    &&& d[id].source_ref == referent
    &&& d[id].parent == parent
    &&& d[id].class == raw.class
    &&& d[id].name == raw.name
    &&& d[id].children.len() == 0
    &&& represents_properties(d[id].properties, raw.properties)
    &&& children.len() <= raw.children.len()
    &&& forall|j: int|
        0 <= j < children.len() ==> id < (#[trigger] children[j]) < d.len()
            && d[children[j] as int].parent == Some(id as usize)
            && d[children[j] as int].source_ref == raw.children[j]
    &&& forall|j: int, k: int|
        0 <= j < k < children.len() ==> (#[trigger] children[j]) < (#[trigger] children[k])
    &&& forall|i: int|
        id < i < d.len() ==> (#[trigger] d[i]).parent is Some && id <= d[i].parent->0 < i && (
        if d[i].parent->0 == id {
            children.contains(i as usize)
        } else {
            d[d[i].parent->0 as int].children.contains(i as usize)
        })
    &&& forall|p: int, j: int|
        id < p < d.len() && 0 <= j < d[p].children.len() ==> {
            let c = #[trigger] d[p].children[j];
            p < c < d.len() && d[c as int].parent == Some(p as usize)
        }
    &&& forall|p: int, j: int, k: int|
        id < p < d.len() && 0 <= j < k < d[p].children.len() ==> (#[trigger] d[p].children[j]) < (
        #[trigger] d[p].children[k])
    &&& document_order(d, id, d.len() as int)
    &&& forall|i: int| id <= i < d.len() ==> #[trigger] ancestor_or_self(d, id, i)
    &&& forall|i: int| id < i < d.len() ==> #[trigger] represents_at(d, i, tree)
}

/// What [`growing`] says about where the next child is reached.
proof fn lemma_growing_next(
    d: DomModel,
    tree: dom::Forest,
    id: int,
    parent: Option<usize>,
    referent: u128,
    children: Seq<usize>,
)
    requires
        growing(d, tree, id, parent, referent, children),
        reached(d, tree),
        children.len() < tree.instances[referent].children.len(),
    ensures
        next_place(
            d,
            tree,
            tree.instances[referent].children[children.len() as int],
            Some(id as usize),
            children.len() as int,
        ),
{
    let at = children.len() as int;
    assert forall|i: int|
        0 < i < d.len() && (#[trigger] d[i]).parent == Some(id as usize) implies exists|j: int|
        j < at && #[trigger] is_place(d, tree, i, j) by {
        assert(has_place(d, tree, i));
        assert(children.contains(i as usize));
        let x = children.index_of(i as usize);
        assert(children[x] == i);
        assert(is_place(d, tree, i, x));
    }
}

/// The state of taking in an instance after one more child was taken in.
spec fn stepping(
    d: DomModel,
    e: DomModel,
    tree: dom::Forest,
    id: int,
    parent: Option<usize>,
    referent: u128,
    children: Seq<usize>,
) -> bool {
    let m = d.len() as int;
    &&& growing(d, tree, id, parent, referent, children)
    &&& children.len() < tree.instances[referent].children.len()
    &&& m < e.len() <= usize::MAX
    &&& e.take(m) == d
    &&& links_wf(e, m, e.len() as int, Some(id as usize))
    &&& document_order(e, m, e.len() as int)
    &&& e[m].source_ref == tree.instances[referent].children[children.len() as int]
    &&& forall|i: int| m <= i < e.len() ==> #[trigger] represents_at(e, i, tree)
}

proof fn lemma_step_prefix(d: DomModel, e: DomModel, i: int)
    requires
        0 <= i < d.len() <= e.len(),
        e.take(d.len() as int) == d,
    ensures
        e[i] == d[i],
{
    assert(e.take(d.len() as int)[i] == e[i]);
}

proof fn lemma_step_children(
    d: DomModel,
    e: DomModel,
    tree: dom::Forest,
    id: int,
    parent: Option<usize>,
    referent: u128,
    children: Seq<usize>,
)
    requires
        stepping(d, e, tree, id, parent, referent, children),
    ensures
        ({
            let more = children.push(d.len() as usize);
            &&& forall|j: int|
                0 <= j < more.len() ==> id < (#[trigger] more[j]) < e.len()
                    && e[more[j] as int].parent == Some(id as usize)
                    && e[more[j] as int].source_ref == tree.instances[referent].children[j]
            &&& forall|j: int, k: int|
                0 <= j < k < more.len() ==> (#[trigger] more[j]) < (#[trigger] more[k])
        }),
{
    reveal(links_wf);
    let m = d.len() as int;
    let more = children.push(m as usize);
    assert forall|j: int| 0 <= j < more.len() implies id < (#[trigger] more[j]) < e.len()
        && e[more[j] as int].parent == Some(id as usize) && e[more[j] as int].source_ref
        == tree.instances[referent].children[j] by {
        if j < children.len() {
            assert(more[j] == children[j]);
            lemma_step_prefix(d, e, children[j] as int);
        }
    }
    assert forall|j: int, k: int| 0 <= j < k < more.len() implies (#[trigger] more[j]) < (
    #[trigger] more[k]) by {
        if k < children.len() {
            assert(children[j] < children[k]);
        } else {
            assert(more[j] == children[j]);
        }
    }
}

proof fn lemma_step_parents(
    d: DomModel,
    e: DomModel,
    tree: dom::Forest,
    id: int,
    parent: Option<usize>,
    referent: u128,
    children: Seq<usize>,
)
    requires
        stepping(d, e, tree, id, parent, referent, children),
    ensures
        forall|i: int|
            id < i < e.len() ==> (#[trigger] e[i]).parent is Some && id <= e[i].parent->0 < i && (
            if e[i].parent->0 == id {
                children.push(d.len() as usize).contains(i as usize)
            } else {
                e[e[i].parent->0 as int].children.contains(i as usize)
            }),
{
    reveal(links_wf);
    let m = d.len() as int;
    let more = children.push(m as usize);
    assert forall|i: int| id < i < e.len() implies (#[trigger] e[i]).parent is Some && id
        <= e[i].parent->0 < i && (if e[i].parent->0 == id {
        more.contains(i as usize)
    } else {
        e[e[i].parent->0 as int].children.contains(i as usize)
    }) by {
        if i < m {
            lemma_step_prefix(d, e, i);
            assert(d[i].parent is Some);
            if d[i].parent->0 == id {
                let x = children.index_of(i as usize);
                assert(more[x] == i as usize);
            } else {
                lemma_step_prefix(d, e, d[i].parent->0 as int);
            }
        } else if i == m {
            assert(more[children.len() as int] == m as usize);
        } else {
            assert(m <= e[i].parent->0);
        }
    }
}

proof fn lemma_step_links(
    d: DomModel,
    e: DomModel,
    tree: dom::Forest,
    id: int,
    parent: Option<usize>,
    referent: u128,
    children: Seq<usize>,
)
    requires
        stepping(d, e, tree, id, parent, referent, children),
    ensures
        forall|p: int, j: int|
            id < p < e.len() && 0 <= j < e[p].children.len() ==> {
                let c = #[trigger] e[p].children[j];
                p < c < e.len() && e[c as int].parent == Some(p as usize)
            },
        forall|p: int, j: int, k: int|
            id < p < e.len() && 0 <= j < k < e[p].children.len() ==> (#[trigger] e[p].children[j]) < (
            #[trigger] e[p].children[k]),
{
    reveal(links_wf);
    let m = d.len() as int;
    assert forall|p: int, j: int| id < p < e.len() && 0 <= j < e[p].children.len() implies ({
        let c = #[trigger] e[p].children[j];
        p < c < e.len() && e[c as int].parent == Some(p as usize)
    }) by {
        if p < m {
            lemma_step_prefix(d, e, p);
            let c = d[p].children[j];
            lemma_step_prefix(d, e, c as int);
        }
    }
    assert forall|p: int, j: int, k: int| id < p < e.len() && 0 <= j < k < e[p].children.len() implies (
    #[trigger] e[p].children[j]) < (#[trigger] e[p].children[k]) by {
        if p < m {
            lemma_step_prefix(d, e, p);
            assert(d[p].children[j] < d[p].children[k]);
        }
    }
}

proof fn lemma_step_order(
    d: DomModel,
    e: DomModel,
    tree: dom::Forest,
    id: int,
    parent: Option<usize>,
    referent: u128,
    children: Seq<usize>,
)
    requires
        stepping(d, e, tree, id, parent, referent, children),
    ensures
        forall|i: int| id <= i < e.len() ==> #[trigger] ancestor_or_self(e, id, i),
        document_order(e, id, e.len() as int),
{
    let m = d.len() as int;
    assert forall|i: int| 0 <= i < m implies e[i] == d[i] by {
        lemma_step_prefix(d, e, i);
    }
    assert forall|i: int| id <= i < e.len() implies #[trigger] ancestor_or_self(e, id, i) by {
        if i < m {
            assert(ancestor_or_self(d, id, i));
            lemma_ancestor_prefix(d, e, id, i);
        } else {
            lemma_root_is_ancestor(e, m, e.len() as int, Some(id as usize), i);
            assert(ancestor_or_self(d, id, id));
            lemma_ancestor_prefix(d, e, id, id);
            assert(ancestor_or_self(e, id, m)) by {
                reveal(links_wf);
            }
            lemma_ancestor_transitive(e, id, m, i);
        }
    }
    assert forall|i: int| id < i < e.len() implies ancestor_or_self(
        e,
        (#[trigger] e[i]).parent->0 as int,
        i - 1,
    ) by {
        if i < m {
            assert(e[i] == d[i]);
            assert(d[i].parent is Some);
            lemma_ancestor_prefix(d, e, d[i].parent->0 as int, i - 1);
        } else if i == m {
            reveal(links_wf);
            assert(ancestor_or_self(e, id, m - 1));
        }
    }
}

proof fn lemma_step_represents(
    d: DomModel,
    e: DomModel,
    tree: dom::Forest,
    id: int,
    parent: Option<usize>,
    referent: u128,
    children: Seq<usize>,
)
    requires
        stepping(d, e, tree, id, parent, referent, children),
    ensures
        forall|i: int| id < i < e.len() ==> #[trigger] represents_at(e, i, tree),
{
    let m = d.len() as int;
    assert forall|i: int| id < i < e.len() implies #[trigger] represents_at(e, i, tree) by {
        if i < m {
            assert(represents_at(d, i, tree));
            lemma_step_prefix(d, e, i);
            assert forall|j: int| 0 <= j < e[i].children.len() implies e[#[trigger] e[i].children[j] as int].source_ref
                == tree.instances[e[i].source_ref].children[j] by {
                let c = d[i].children[j];
                lemma_step_prefix(d, e, c as int);
            }
        }
    }
}

proof fn lemma_growing_step(
    d: DomModel,
    e: DomModel,
    tree: dom::Forest,
    id: int,
    parent: Option<usize>,
    referent: u128,
    children: Seq<usize>,
)
    requires
        stepping(d, e, tree, id, parent, referent, children),
    ensures
        growing(e, tree, id, parent, referent, children.push(d.len() as usize)),
{
    lemma_step_prefix(d, e, id);
    lemma_step_children(d, e, tree, id, parent, referent, children);
    lemma_step_parents(d, e, tree, id, parent, referent, children);
    lemma_step_links(d, e, tree, id, parent, referent, children);
    lemma_step_order(d, e, tree, id, parent, referent, children);
    lemma_step_represents(d, e, tree, id, parent, referent, children);
}

proof fn lemma_growing_done(
    d: DomModel,
    e: DomModel,
    tree: dom::Forest,
    id: int,
    parent: Option<usize>,
    referent: u128,
    children: Seq<usize>,
    index: Map<u128, usize>,
)
    requires
        growing(d, tree, id, parent, referent, children),
        children.len() == tree.instances[referent].children.len(),
        index_wf(d, index),
        reached(d, tree),
        e == d.update(id, InstanceModel { children, ..d[id] }),
    ensures
        index_wf(e, index),
        reached(e, tree),
        links_wf(e, id, e.len() as int, parent),
        document_order(e, id, e.len() as int),
        forall|i: int| id <= i < e.len() ==> #[trigger] represents_at(e, i, tree),
{
    reveal(links_wf);
    assert forall|i: int| 0 <= i < e.len() implies index.contains_key((#[trigger] e[i]).source_ref)
        && index[e[i].source_ref] == i by {
        assert(e[i].source_ref == d[i].source_ref);
    }
    assert forall|r: u128| #[trigger] index.contains_key(r) implies index[r] < e.len()
        && e[index[r] as int].source_ref == r by {
        assert(e[index[r] as int].source_ref == d[index[r] as int].source_ref);
    }
    assert forall|i: int| 0 < i < e.len() implies #[trigger] has_place(e, tree, i) by {
        assert(has_place(d, tree, i));
        let j = choose|j: int| is_place(d, tree, i, j);
        assert(is_place(e, tree, i, j));
    }
    assert forall|i: int| 0 <= i < e.len() implies tree.instances.contains_key(
        (#[trigger] e[i]).source_ref,
    ) by {
        assert(e[i].source_ref == d[i].source_ref);
    }
    assert forall|i: int| id < i < e.len() implies (#[trigger] e[i]).parent is Some && id
        <= e[i].parent->0 < i && e[e[i].parent->0 as int].children.contains(i as usize) by {
        assert(e[i] == d[i]);
    }
    assert forall|p: int, j: int| id <= p < e.len() && 0 <= j < e[p].children.len() implies ({
        let c = #[trigger] e[p].children[j];
        p < c < e.len() && e[c as int].parent == Some(p as usize)
    }) by {
        if p == id {
            let c = children[j];
            assert(e[c as int] == d[c as int]);
        } else {
            assert(e[p] == d[p]);
            let c = d[p].children[j];
            assert(e[c as int] == d[c as int]);
        }
    }
    assert forall|p: int, j: int, k: int| id <= p < e.len() && 0 <= j < k < e[p].children.len() implies (
    #[trigger] e[p].children[j]) < (#[trigger] e[p].children[k]) by {
        if p == id {
            assert(children[j] < children[k]);
        } else {
            assert(e[p] == d[p]);
            assert(d[p].children[j] < d[p].children[k]);
        }
    }
    assert forall|i: int| id < i < e.len() implies ancestor_or_self(
        e,
        (#[trigger] e[i]).parent->0 as int,
        i - 1,
    ) by {
        assert(e[i] == d[i]);
        lemma_ancestor_prefix(d, e, d[i].parent->0 as int, i - 1);
    }
    assert forall|i: int| id <= i < e.len() implies #[trigger] represents_at(e, i, tree) by {
        if i == id {
            assert forall|j: int| 0 <= j < e[i].children.len() implies e[#[trigger] e[i].children[j] as int].source_ref
                == tree.instances[e[i].source_ref].children[j] by {
                let c = children[j];
                assert(e[c as int] == d[c as int]);
            }
        } else {
            assert(represents_at(d, i, tree));
            assert(e[i] == d[i]);
            assert forall|j: int| 0 <= j < e[i].children.len() implies e[#[trigger] e[i].children[j] as int].source_ref
                == tree.instances[e[i].source_ref].children[j] by {
                let c = d[i].children[j];
                assert(e[c as int].source_ref == d[c as int].source_ref);
            }
        }
    }
}

/// Takes in the instance `referent` with its descendants, in document order.
fn insert_subtree(
    dom: &WeakDom,
    referent: u128,
    parent: Option<usize>,
    nodes: &mut IndexMap<usize, SemanticInstance>,
    index: &mut HashMap<u128, usize>,
    Ghost(at): Ghost<int>,
) -> (res: Result<usize, Error>)
    requires
        is_numbered(semantic_nodes(*old(nodes))),
        index_wf(table(*old(nodes)), old(index)@),
        reached(table(*old(nodes)), dom::forest(*dom)),
        next_place(table(*old(nodes)), dom::forest(*dom), referent, parent, at),
    ensures
        match res {
            Ok(id) => {
                let before = table(*old(nodes));
                let after = table(*final(nodes));
                &&& is_numbered(semantic_nodes(*final(nodes)))
                &&& id == before.len()
                &&& before.len() < after.len()
                &&& after.take(before.len() as int) == before
                &&& index_wf(after, final(index)@)
                &&& reached(after, dom::forest(*dom))
                &&& links_wf(after, id as int, after.len() as int, parent)
                &&& document_order(after, id as int, after.len() as int)
                &&& after[id as int].source_ref == referent
                &&& forall|i: int|
                    id <= i < after.len() ==> #[trigger] represents_at(after, i, dom::forest(*dom))
            },
            Err(e) => link_failure(dom::forest(*dom), e@),
        },
    decreases dom::forest(*dom).instances.dom().len() - table(*old(nodes)).len(),
{
    let ghost tree = dom::forest(*dom);
    let ghost before = table(*nodes);
    proof {
        reveal(links_wf);
        lemma_index_distinct(before, index@);
    }
    if let Some(seen) = index.get(&referent) {
        proof {
            lemma_bad_link(before, tree, referent, parent, at, *seen as int);
        }
        return Err(link_error(referent));
    }
    let instance = match get_instance(dom, referent) {
        Some(instance) => instance,
        None => {
            proof {
                lemma_bad_link(before, tree, referent, parent, at, -1);
            }
            return Err(link_error(referent));
        },
    };
    let ghost raw = tree.instances[referent];
    let properties = property_values(&instance.properties, Ghost(raw.properties));
    let id: usize = count_instances(nodes);
    let node = SemanticInstance {
        source_ref: referent,
        class: instance.class,
        name: instance.name,
        parent,
        children: Vec::new(),
        properties,
    };
    proof {
        lemma_put_next(semantic_nodes(*nodes), id, node);
    }
    put_instance(nodes, id, node);
    index.insert(referent, id);
    let _count: usize = count_instances(nodes);
    let mut children: Vec<usize> = Vec::new();
    proof {
        let d = table(*nodes);
        assert(d.take(id as int) =~= before);
        lemma_started(before, d, tree, referent, parent, at);
        assert(index_wf(d, index@)) by {
            assert forall|i: int| 0 <= i < d.len() implies index@.contains_key(
                (#[trigger] d[i]).source_ref,
            ) && index@[d[i].source_ref] == i by {
                if i < id {
                    assert(d[i] == before[i]);
                }
            }
            assert forall|r: u128| #[trigger] index@.contains_key(r) implies index@[r] < d.len()
                && d[index@[r] as int].source_ref == r by {
                if r != referent {
                    assert(old(index)@.contains_key(r));
                    assert(d[index@[r] as int] == before[index@[r] as int]);
                }
            }
        }
        assert(document_order(d, id as int, d.len() as int));
        assert(ancestor_or_self(d, id as int, id as int));
        assert(growing(d, tree, id as int, parent, referent, children@));
    }
    let mut k: usize = 0;
    while k < instance.children.len()
        invariant
            k <= instance.children.len(),
            k == children.len(),
            tree == dom::forest(*dom),
            tree.instances.dom().finite(),
            instance.children@ == tree.instances[referent].children,
            id == before.len(),
            before == table(*old(nodes)),
            is_numbered(semantic_nodes(*nodes)),
            table(*nodes).len() > id,
            table(*nodes).take(id as int) == before,
            index_wf(table(*nodes), index@),
            reached(table(*nodes), tree),
            growing(table(*nodes), tree, id as int, parent, referent, children@),
        decreases instance.children.len() - k,
    {
        let ghost d = table(*nodes);
        proof {
            lemma_growing_next(d, tree, id as int, parent, referent, children@);
            lemma_index_distinct(d, index@);
            lemma_visited(d, tree);
        }
        let child = insert_subtree(
            dom,
            instance.children[k],
            Some(id),
            nodes,
            index,
            Ghost(k as int),
        );
        match child {
            Ok(c) => {
                let _count: usize = count_instances(nodes);
                proof {
                    let e = table(*nodes);
                    lemma_growing_step(d, e, tree, id as int, parent, referent, children@);
                    assert(e.take(id as int) =~= e.take(d.len() as int).take(id as int));
                }
                children.push(c);
            },
            Err(e) => {
                return Err(e);
            },
        }
        k += 1;
    }
    let ghost d = table(*nodes);
    let ghost ids = children@;
    let ghost held = semantic_nodes(*nodes);
    assert(held.contains_key(id));
    let node = lend_instance(nodes, id);
    node.children = children;
    proof {
        lemma_put_again(held, id, semantic_nodes(*nodes)[id]);
        let e = table(*nodes);
        assert(e =~= d.update(id as int, InstanceModel { children: ids, ..d[id as int] }));
        lemma_growing_done(d, e, tree, id as int, parent, referent, ids, index@);
        assert(e.take(id as int) =~= d.take(id as int));
    }
    Ok(id)
}

impl SemanticDom {
    /// Numbers the instances that the root of a tree leads to, in document
    /// order. Fails where a child does not resolve or is reached twice, which
    /// the links of a tree rule out.
    pub fn from_weak_dom(dom: &WeakDom) -> (res: Result<Self, Error>)
        ensures
            match res {
                Ok(semantic) => semantic.wf() && represents(semantic@, dom::forest(*dom)),
                Err(e) => link_failure(dom::forest(*dom), e@),
            },
    {
        let mut nodes = no_instances();
        let mut index: HashMap<u128, usize> = HashMap::new();
        assert(table(nodes) =~= Seq::<InstanceModel>::empty());
        let root = root_referent(dom);
        match insert_subtree(dom, root, None, &mut nodes, &mut index, Ghost(0)) {
            Ok(_) => {
                let _count: usize = count_instances(&nodes);
                let semantic = SemanticDom { nodes, ref_to_node: index };
                proof {
                    reveal(links_wf);
                    lemma_index_distinct(semantic@, semantic.ref_to_node@);
                    assert forall|i: int| 0 <= i < semantic@.len() implies properties_wf(
                        (#[trigger] semantic@[i]).properties,
                    ) by {
                        assert(represents_at(semantic@, i, dom::forest(*dom)));
                    }
                }
                Ok(semantic)
            },
            Err(e) => Err(e),
        }
    }

    /// How many instances there are.
    pub fn count(&self) -> (res: usize)
        requires
            self@.len() > 0,
        ensures
            res == self@.len(),
    {
        count_instances(&self.nodes)
    }

    /// The instance of an id.
    pub fn node(&self, id: usize) -> (res: &SemanticInstance)
        requires
            id < self@.len(),
        ensures
            res@ == self@[id as int],
    {
        assert(semantic_nodes(self.nodes).contains_key(id));
        match find_instance(&self.nodes, id) {
            Some(node) => node,
            None => vstd::pervasive::unreached(),
        }
    }

    /// The instance that a referent decoded to.
    pub fn node_for_ref(&self, referent: u128) -> (res: Option<usize>)
        requires
            self.wf(),
        ensures
            res == node_of_ref(self@, referent),
            res is Some ==> res->0 < self@.len(),
    {
        match self.ref_to_node.get(&referent) {
            Some(id) => {
                proof {
                    lemma_node_of_ref(self@, *id as int);
                }
                Some(*id)
            },
            None => {
                proof {
                    if node_of_ref(self@, referent) is Some {
                        lemma_node_of_ref_some(self@, referent);
                        let i = node_of_ref(self@, referent)->0;
                        assert(self.ref_to_node@.contains_key(self@[i as int].source_ref));
                    }
                }
                None
            },
        }
    }

    fn names_to(&self, id: usize) -> (res: Vec<String>)
        requires
            id < self@.len(),
        ensures
            text::strings_view(res@) == path_names(self@, id as int),
        decreases id,
    {
        if id == 0 {
            let res: Vec<String> = Vec::new();
            assert(text::strings_view(res@) =~= Seq::<Text>::empty());
            return res;
        }
        let node = self.node(id);
        let mut names: Vec<String> = match node.parent {
            Some(p) => if p < id {
                self.names_to(p)
            } else {
                Vec::new()
            },
            None => Vec::new(),
        };
        let ghost above = text::strings_view(names@);
        names.push(node.name.clone());
        assert(text::strings_view(names@) =~= above.push(self@[id as int].name));
        names
    }

    /// The dotted path of an instance (`Workspace.Folder.Part`); that of the root
    /// is `<root>`.
    pub fn path(&self, id: usize) -> (res: String)
        requires
            id < self@.len(),
        ensures
            res@ == dom_path(self@, id as int),
    {
        if id == 0 {
            return "<root>".to_owned();
        }
        join_strings(&self.names_to(id), ".")
    }

    /// The unique id of an instance, unless it is nil.
    pub fn unique_id(&self, id: usize) -> (res: Option<u128>)
        requires
            id < self@.len(),
        ensures
            res == node_unique_id(self@[id as int]),
    {
        match find(&self.node(id).properties, "UniqueId") {
            Some(value) => match read_unique_id(value) {
                Some(u) => if u != 0 {
                    Some(u)
                } else {
                    None
                },
                None => None,
            },
            None => None,
        }
    }
}

} // verus!
