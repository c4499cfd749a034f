//! What of a tree is written: the roots and what is below them.

use std::collections::HashSet;

use rbx_reflection::ReflectionDatabase;
use vstd::prelude::*;

use crate::database;
use crate::database::{find_strays, finds_place};
use crate::dom;
use crate::matching::Classes;
use crate::semantic;
use crate::semantic::{DomModel, SemanticDom};
use crate::text::Text;
use crate::value::{Value, ValueModel};
use crate::variant;
use crate::variant::{shape_of, Shape};

verus! {

broadcast use vstd::std_specs::hash::group_hash_axioms;

/// Whether an instance is one of the roots or below one.
pub open spec fn below(d: DomModel, roots: Seq<u128>, k: int) -> bool
    decreases k,
{
    roots.contains(d[k].source_ref) || (0 < k < d.len() && d[k].parent is Some && d[k].parent->0 < k
        && below(d, roots, d[k].parent->0 as int))
}

/// Whether a value is a content that is neither empty nor a URI.
pub open spec fn is_linked_content(v: ValueModel) -> bool {
    match v {
        ValueModel::Object(_) => true,
        ValueModel::Leaf(x) => variant::shape(x) is UnknownContent,
        _ => false,
    }
}

/// Whether an instance that is written holds a content that is neither empty nor a
/// URI, for which XML has no form.
pub open spec fn has_linked_content(d: DomModel, roots: Seq<u128>) -> bool {
    exists|k: int, i: int|
        0 <= k < d.len() && below(d, roots, k) && 0 <= i < d[k].properties.len()
            && is_linked_content((#[trigger] d[k].properties[i]).1)
}

/// Whether an instance that is written holds a property that a binary file has no place
/// for.
pub open spec fn has_homeless_property(d: DomModel, roots: Seq<u128>, classes: Classes) -> bool {
    exists|k: int, i: int|
        0 <= k < d.len() && below(d, roots, k) && 0 <= i < d[k].properties.len()
            && !database::has_place(classes, d[k].class, (#[trigger] d[k].properties[i]).0)
}

/// Every root is an instance.
pub open spec fn resolves(d: DomModel, roots: Seq<u128>) -> bool {
    forall|i: int| 0 <= i < roots.len() ==> semantic::node_of_ref(d, #[trigger] roots[i]) is Some
}

/// Whether the instances that the root of a tree leads to form a tree, the roots are
/// among them, and a binary file has a place for all that is written.
pub open spec fn writable_as_binary(tree: dom::Forest, roots: Seq<u128>, classes: Classes) -> bool {
    exists|d: DomModel| #[trigger]
        semantic::represents(d, tree) && resolves(d, roots) && !has_homeless_property(
            d,
            roots,
            classes,
        )
}

/// Whether the instances that the root of a tree leads to form a tree, the roots are
/// among them, and XML has a form for all that is written.
pub open spec fn writable_as_xml(tree: dom::Forest, roots: Seq<u128>) -> bool {
    exists|d: DomModel| #[trigger]
        semantic::represents(d, tree) && resolves(d, roots) && !has_linked_content(d, roots)
}

/// The first root that is no instance.
pub(crate) fn find_unresolved(dom: &SemanticDom, roots: &Vec<u128>) -> (res: Option<u128>)
    requires
        dom.wf(),
    ensures
        match res {
            Some(x) => exists|i: int|
                0 <= i < roots@.len() && #[trigger] roots@[i] == x && semantic::node_of_ref(
                    dom@,
                    x,
                ) is None && resolves(dom@, roots@.take(i)),
            None => resolves(dom@, roots@),
        },
{
    let mut i: usize = 0;
    while i < roots.len()
        invariant
            i <= roots.len(),
            dom.wf(),
            forall|j: int|
                0 <= j < i ==> semantic::node_of_ref(dom@, #[trigger] roots@[j]) is Some,
        decreases roots.len() - i,
    {
        if dom.node_for_ref(roots[i]).is_none() {
            assert(roots@[i as int] == roots[i as int]);
            assert(resolves(dom@, roots@.take(i as int)));
            return Some(roots[i]);
        }
        i += 1;
    }
    None
}

fn holds_linked_content(value: &Value) -> (res: bool)
    ensures
        res == is_linked_content(value@),
{
    match value {
        Value::Object(_) => true,
        Value::Leaf(v) => match shape_of(v) {
            Shape::UnknownContent => true,
            _ => false,
        },
        _ => false,
    }
}

fn roots_of(roots: &Vec<u128>) -> (res: HashSet<u128>)
    ensures
        forall|x: u128| #[trigger] res@.contains(x) <==> roots@.contains(x),
{
    let mut set: HashSet<u128> = HashSet::new();
    let mut i: usize = 0;
    while i < roots.len()
        invariant
            i <= roots.len(),
            forall|x: u128| #[trigger] set@.contains(x) <==> roots@.take(i as int).contains(x),
        decreases roots.len() - i,
    {
        let ghost before = set@;
        set.insert(roots[i]);
        proof {
            let (a, b) = (roots@.take(i as int), roots@.take(i + 1));
            assert(b =~= a.push(roots@[i as int]));
            assert forall|x: u128| #[trigger] set@.contains(x) <==> b.contains(x) by {
                assert(before.contains(x) <==> a.contains(x));
                if a.contains(x) {
                    assert(b[a.index_of(x)] == x);
                }
                if x == roots@[i as int] {
                    assert(b[i as int] == x);
                }
                if b.contains(x) {
                    let k = b.index_of(x);
                    if k < i {
                        assert(a[k] == x);
                    }
                }
            }
        }
        i += 1;
    }
    assert(roots@.take(roots@.len() as int) =~= roots@);
    set
}

/// Which instances are roots or below one.
fn marks_below(dom: &SemanticDom, roots: &Vec<u128>) -> (res: Vec<bool>)
    requires
        dom.wf(),
    ensures
        res.len() == dom@.len(),
        forall|j: int| 0 <= j < dom@.len() ==> #[trigger] res@[j] == below(dom@, roots@, j),
{
    let set = roots_of(roots);
    let mut marks: Vec<bool> = Vec::new();
    let mut k: usize = 0;
    while k < dom.count()
        invariant
            k <= dom@.len(),
            dom@.len() > 0,
            marks.len() == k,
            forall|x: u128| #[trigger] set@.contains(x) <==> roots@.contains(x),
            forall|j: int| 0 <= j < k ==> #[trigger] marks@[j] == below(dom@, roots@, j),
        decreases dom@.len() - k,
    {
        let node = dom.node(k);
        let under = match node.parent {
            Some(p) => p < k && marks[p],
            None => false,
        };
        let mark = set.contains(&node.source_ref) || under;
        assert(mark == below(dom@, roots@, k as int)) by {
            if let Some(p) = node.parent {
                if p < k {
                    assert(marks@[p as int] == below(dom@, roots@, p as int));
                }
            }
        }
        marks.push(mark);
        k += 1;
    }
    marks
}

/// Tells whether an instance that is written holds a content that is neither empty
/// nor a URI.
pub(crate) fn finds_linked_content(dom: &SemanticDom, roots: &Vec<u128>) -> (res: bool)
    requires
        dom.wf(),
    ensures
        res == has_linked_content(dom@, roots@),
{
    let marks = marks_below(dom, roots);
    let mut k: usize = 0;
    while k < dom.count()
        invariant
            k <= dom@.len(),
            dom@.len() > 0,
            marks.len() == dom@.len(),
            forall|j: int| 0 <= j < dom@.len() ==> #[trigger] marks@[j] == below(dom@, roots@, j),
            forall|j: int, i: int|
                0 <= j < k && below(dom@, roots@, j) && 0 <= i < dom@[j].properties.len()
                    ==> !is_linked_content((#[trigger] dom@[j].properties[i]).1),
        decreases dom@.len() - k,
    {
        let node = dom.node(k);
        if marks[k] {
            let mut i: usize = 0;
            while i < node.properties.len()
                invariant
                    i <= node.properties.len(),
                    k < dom@.len(),
                    node@ == dom@[k as int],
                    below(dom@, roots@, k as int),
                    forall|j: int|
                        0 <= j < i ==> !is_linked_content(
                            (#[trigger] dom@[k as int].properties[j]).1,
                        ),
                decreases node.properties.len() - i,
            {
                assert(dom@[k as int].properties[i as int].1 == node.properties@[i as int].1@);
                if holds_linked_content(&node.properties[i].1) {
                    return true;
                }
                i += 1;
            }
        }
        k += 1;
    }
    false
}

/// Tells whether an instance that is written holds a property that a binary file has no
/// place for.
pub(crate) fn finds_homeless_property(
    dom: &SemanticDom,
    roots: &Vec<u128>,
    db: &ReflectionDatabase<'static>,
) -> (res: bool)
    requires
        dom.wf(),
        database::fits_together(dom::classes(*db)),
    ensures
        res == has_homeless_property(dom@, roots@, dom::classes(*db)),
{
    let ghost classes = dom::classes(*db);
    let marks = marks_below(dom, roots);
    let strays = find_strays(db);
    let mut k: usize = 0;
    while k < dom.count()
        invariant
            k <= dom@.len(),
            dom@.len() > 0,
            classes == dom::classes(*db),
            forall|c: Text| #[trigger]
                dom::classes(*db).contains_key(c) ==> database::lists_strays(
                    dom::classes(*db),
                    c,
                    strays@,
                ),
            marks.len() == dom@.len(),
            forall|j: int| 0 <= j < dom@.len() ==> #[trigger] marks@[j] == below(dom@, roots@, j),
            forall|j: int, i: int|
                0 <= j < k && below(dom@, roots@, j) && 0 <= i < dom@[j].properties.len()
                    ==> database::has_place(
                    classes,
                    dom@[j].class,
                    (#[trigger] dom@[j].properties[i]).0,
                ),
        decreases dom@.len() - k,
    {
        let node = dom.node(k);
        if marks[k] {
            let mut i: usize = 0;
            while i < node.properties.len()
                invariant
                    i <= node.properties.len(),
                    k < dom@.len(),
                    node@ == dom@[k as int],
                    classes == dom::classes(*db),
                    forall|c: Text| #[trigger]
                        dom::classes(*db).contains_key(c) ==> database::lists_strays(
                            dom::classes(*db),
                            c,
                            strays@,
                        ),
                    below(dom@, roots@, k as int),
                    forall|j: int|
                        0 <= j < i ==> database::has_place(
                            classes,
                            dom@[k as int].class,
                            (#[trigger] dom@[k as int].properties[j]).0,
                        ),
                decreases node.properties.len() - i,
            {
                assert(dom@[k as int].properties[i as int].0 == node.properties@[i as int].0@);
                if !finds_place(
                    db,
                    &strays,
                    node.class.as_str(),
                    node.properties[i].0.as_str(),
                ) {
                    return true;
                }
                i += 1;
            }
        }
        k += 1;
    }
    false
}

} // verus!
