//! Which additions of the two sides are one: those with one unique id, and those that nothing
//! but the side tells apart.

use vstd::prelude::*;

use crate::additions;
use crate::additions::Additions;
use crate::lists;
use crate::matching;
use crate::semantic;
use crate::semantic::DomModel;
use crate::text::Text;

verus! {

/// Whether an instance of a side is matched with none of the base.
pub open spec fn is_new(matches: Seq<Option<usize>>, x: usize) -> bool {
    forall|i: int| 0 <= i < matches.len() ==> #[trigger] matches[i] != Some(x)
}

/// Whether an addition is a child with a class and a name.
pub open spec fn is_added(
    d: DomModel,
    matches: Seq<Option<usize>>,
    p: int,
    class: Text,
    name: Text,
    x: usize,
) -> bool {
    &&& d[p].children.contains(x)
    &&& is_new(matches, x)
    &&& d[x as int].class == class
    &&& d[x as int].name == name
}

/// Whether an instance alone among those that are new has a unique id.
pub open spec fn has_new_id(d: DomModel, matches: Seq<Option<usize>>, x: usize, id: u128) -> bool {
    &&& x < d.len()
    &&& is_new(matches, x)
    &&& semantic::node_unique_id(d[x as int]) == Some(id)
    &&& forall|y: usize|
        y < d.len() && is_new(matches, y) && semantic::node_unique_id(#[trigger] d[y as int])
            == Some(id) ==> y == x
}

/// Whether an instance of ours and one of theirs are one: both are the same instance of the
/// base, or one addition.
pub open spec fn are_one(a: Additions, o: usize, t: usize) -> bool {
    ||| exists|i: int|
        0 <= i < a.base_to_ours.len() && #[trigger] a.base_to_ours[i] == Some(o)
            && a.base_to_theirs[i] == Some(t)
    ||| is_new(a.base_to_theirs, t) && a.partner(t as int) == Some(o)
}

pub proof fn lemma_new(matches: Seq<Option<usize>>, x: usize)
    ensures
        is_new(matches, x) <==> !additions::is_target(matches, x as int),
{
    assert(x as int as usize == x);
}

/// Additions with one unique id, which no other additions have, are one, whatever else is
/// different about them.
pub proof fn law_additions_with_one_id_are_one(a: Additions, o: usize, t: usize, id: u128)
    requires
        a.wf(),
        has_new_id(a.ours, a.base_to_ours, o, id),
        has_new_id(a.theirs, a.base_to_theirs, t, id),
    ensures
        a.partner(t as int) == Some(o),
{
    reveal(Additions::partner);
    lemma_sole_new(a.ours, a.base_to_ours, a.new_ours(), o, id);
    lemma_sole_new(a.theirs, a.base_to_theirs, a.new_theirs(), t, id);
    matching::lemma_sole(a.ours, a.new_ours(), o as int, id);
}

proof fn lemma_sole_new(
    d: DomModel,
    matches: Seq<Option<usize>>,
    fresh: Seq<bool>,
    x: usize,
    id: u128,
)
    requires
        semantic::dom_wf(d),
        has_new_id(d, matches, x, id),
        fresh == Seq::new(d.len(), |k: int| !additions::is_target(matches, k)),
    ensures
        matching::is_sole(d, fresh, x as int, id),
{
    lemma_new(matches, x);
    assert(matching::holds_id(d, fresh, x as int, id));
    assert forall|j: int| #[trigger] matching::holds_id(d, fresh, j, id) implies j == x by {
        lemma_new(matches, j as usize);
        assert(d[j] == d[j as usize as int]);
    }
}

pub proof fn lemma_parent_in_ours(a: Additions, t: int, p: usize, q: usize)
    requires
        a.wf(),
        0 < t < a.theirs.len(),
        a.theirs[t].parent == Some(p),
        p < t,
        are_one(a, q, p),
    ensures
        a.parent_in_ours(t) == Some(q),
{
    reveal(Additions::partner);
    lemma_new(a.base_to_theirs, p);
    if exists|i: int|
        0 <= i < a.base_to_ours.len() && #[trigger] a.base_to_ours[i] == Some(q)
            && a.base_to_theirs[i] == Some(p) {
        let i = choose|i: int|
            0 <= i < a.base_to_ours.len() && #[trigger] a.base_to_ours[i] == Some(q)
                && a.base_to_theirs[i] == Some(p);
        additions::lemma_source_of(a.base_to_theirs, a.theirs.len() as int, i);
        assert(!a.new_theirs()[p as int]);
        assert(a.parent_in_ours(t) == a.base_to_ours[i]);
    }
}

proof fn lemma_sole_child(list: Seq<usize>, pred: spec_fn(usize) -> bool, x: usize)
    requires
        lists::increasing(list),
        list.contains(x),
        pred(x),
        forall|y: usize| list.contains(y) && #[trigger] pred(y) ==> y == x,
    ensures
        list.filter(pred) == seq![x],
{
    let some = list.filter(pred);
    lists::lemma_filter_increasing(list, pred);
    lists::lemma_filter_mem(list, pred, x);
    assert forall|i: int| 0 <= i < some.len() implies #[trigger] some[i] == x by {
        assert(some.contains(some[i]));
        lists::lemma_filter_mem(list, pred, some[i]);
    }
    if some.len() > 1 {
        assert(some[0] < some[1]);
    }
    assert(some =~= seq![x]);
}

/// Two additions without unique ids, of one class and one name under one parent, are one,
/// where neither side added another such, whatever values they hold.
#[verifier::rlimit(50)]
pub proof fn law_like_additions_are_one(a: Additions, p: usize, q: usize, o: usize, t: usize)
    requires
        a.wf(),
        q < a.ours.len(),
        p < a.theirs.len(),
        are_one(a, q, p),
        o < a.ours.len(),
        t < a.theirs.len(),
        is_added(a.ours, a.base_to_ours, q as int, a.theirs[t as int].class, a.theirs[t as int].name, o),
        is_added(
            a.theirs,
            a.base_to_theirs,
            p as int,
            a.theirs[t as int].class,
            a.theirs[t as int].name,
            t,
        ),
        semantic::node_unique_id(a.ours[o as int]) is None,
        semantic::node_unique_id(a.theirs[t as int]) is None,
        forall|x: usize| #[trigger]
            is_added(
                a.ours,
                a.base_to_ours,
                q as int,
                a.theirs[t as int].class,
                a.theirs[t as int].name,
                x,
            ) ==> x == o,
        forall|x: usize| #[trigger]
            is_added(
                a.theirs,
                a.base_to_theirs,
                p as int,
                a.theirs[t as int].class,
                a.theirs[t as int].name,
                x,
            ) ==> x == t,
    ensures
        a.partner(t as int) == Some(o),
{
    reveal(Additions::partner);
    let (class, name) = (a.theirs[t as int].class, a.theirs[t as int].name);
    matching::lemma_children(a.ours, q as int);
    matching::lemma_children(a.theirs, p as int);
    let k = a.theirs[p as int].children.index_of(t);
    assert(a.theirs[p as int].children[k] == t);
    lemma_parent_in_ours(a, t as int, p, q);
    lemma_new(a.base_to_ours, o);
    lemma_new(a.base_to_theirs, t);
    assert(!a.taken_by_id(o as int)) by {
        if a.taken_by_id(o as int) {
            let u = choose|u: int|
                0 <= u < a.theirs.len() && #[trigger] a.by_id(u) == Some(o as int as usize);
            matching::lemma_id_match_some(a.theirs, a.new_theirs(), u, a.ours, a.new_ours());
        }
    }
    let ours = a.ours[q as int].children;
    let theirs = a.theirs[p as int].children;
    assert forall|x: usize| ours.contains(x) && #[trigger] a.may_be_ours(t)(x) implies x == o by {
        lemma_new(a.base_to_ours, x);
        let i = ours.index_of(x);
        assert(ours[i] == x);
        assert(is_added(a.ours, a.base_to_ours, q as int, class, name, x));
    }
    lemma_sole_child(ours, a.may_be_ours(t), o);
    assert forall|x: usize| theirs.contains(x) && #[trigger] a.may_be_theirs(o)(x) implies x
        == t by {
        lemma_new(a.base_to_theirs, x);
        let i = theirs.index_of(x);
        assert(theirs[i] == x);
        assert(is_added(a.theirs, a.base_to_theirs, p as int, class, name, x));
    }
    assert(a.by_id(t as int) is None);
    lemma_sole_child(theirs, a.may_be_theirs(o), t);
    assert(seq![o][0] == o);
}

/// Two additions that are one have one unique id; or they have one class and one name under
/// one parent and, where both have unique ids, are similar.
pub proof fn law_one_addition_is_founded(a: Additions, o: usize, t: usize)
    requires
        a.wf(),
        t < a.theirs.len(),
        a.partner(t as int) == Some(o),
    ensures
        o < a.ours.len(),
        is_new(a.base_to_ours, o),
        semantic::node_unique_id(a.ours[o as int]) is Some && semantic::node_unique_id(
            a.ours[o as int],
        ) == semantic::node_unique_id(a.theirs[t as int]) || {
            &&& a.ours[o as int].class == a.theirs[t as int].class
            &&& a.ours[o as int].name == a.theirs[t as int].name
            &&& a.ours[o as int].parent is Some
            &&& a.theirs[t as int].parent is Some
            &&& are_one(a, a.ours[o as int].parent->0, a.theirs[t as int].parent->0)
            &&& semantic::node_unique_id(a.ours[o as int]) is None || semantic::node_unique_id(
                a.theirs[t as int],
            ) is None || matching::similar(a.ours[o as int], a.theirs[t as int])
        },
{
    reveal(Additions::partner);
    additions::lemma_added_partner(a, t as int);
    lemma_new(a.base_to_ours, o);
    if a.by_id(t as int) is Some {
        matching::lemma_id_match_some(a.theirs, a.new_theirs(), t as int, a.ours, a.new_ours());
    } else {
        let p = a.theirs[t as int].parent->0;
        let q = a.parent_in_ours(t as int)->0;
        lemma_new(a.base_to_theirs, p);
        if !a.new_theirs()[p as int] {
            additions::lemma_is_target(a.base_to_theirs, p as int);
            let i = additions::source_of(a.base_to_theirs, p as int);
            assert(a.base_to_ours[i] == Some(q));
        }
    }
}

} // verus!
