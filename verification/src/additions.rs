//! Which additions of the two sides are the same addition: by unique id, or by
//! class, name and parent, and similarity where unique ids differ, if there is no
//! doubt.


use vstd::prelude::*;

use crate::lists;
use crate::matching;
use crate::matching::{
    find_id_match, is_similar, mark_targets, unique_id_index,
};
use crate::semantic;
use crate::semantic::{DomModel, SemanticDom};
use crate::text::same_text;

verus! {

broadcast use vstd::std_specs::hash::group_hash_axioms;

/// The inputs: the two sides, and the matches of the base with each of them.
pub ghost struct Additions {
    pub ours: DomModel,
    pub theirs: DomModel,
    pub base_to_ours: Seq<Option<usize>>,
    pub base_to_theirs: Seq<Option<usize>>,
}

/// Whether a match of the base points at instance `j`.
pub open spec fn is_target(matches: Seq<Option<usize>>, j: int) -> bool {
    exists|i: int| 0 <= i < matches.len() && #[trigger] matches[i] == Some(j as usize)
}

/// The instance of the base that is matched with `j`.
pub open spec fn source_of(matches: Seq<Option<usize>>, j: int) -> int {
    choose|i: int| 0 <= i < matches.len() && #[trigger] matches[i] == Some(j as usize)
}

/// Matches are instances, and no two of them are the same.
pub open spec fn matches_wf(matches: Seq<Option<usize>>, count: int) -> bool {
    &&& forall|i: int|
        0 <= i < matches.len() && (#[trigger] matches[i]) is Some ==> matches[i]->0 < count
    &&& forall|i: int, j: int|
        0 <= i < matches.len() && 0 <= j < matches.len() && (#[trigger] matches[i]) is Some
            && matches[i] == (#[trigger] matches[j]) ==> i == j
    &&& matches.len() > 0
    &&& matches[0] == Some(0usize)
}

impl Additions {
    /// The instances of ours that are not in the base.
    pub open spec fn new_ours(self) -> Seq<bool> {
        Seq::new(self.ours.len(), |o: int| !is_target(self.base_to_ours, o))
    }

    /// The instances of theirs that are not in the base.
    pub open spec fn new_theirs(self) -> Seq<bool> {
        Seq::new(self.theirs.len(), |t: int| !is_target(self.base_to_theirs, t))
    }

    /// The addition of ours that shares its unique id with an addition of theirs.
    pub open spec fn by_id(self, t: int) -> Option<usize> {
        matching::id_match(self.theirs, self.new_theirs(), t, self.ours, self.new_ours())
    }

    pub open spec fn taken_by_id(self, o: int) -> bool {
        exists|t: int| 0 <= t < self.theirs.len() && #[trigger] self.by_id(t) == Some(o as usize)
    }

    /// Whether both an addition of ours and one of theirs have a unique id.
    pub open spec fn both_have_ids(self, o: usize, t: usize) -> bool {
        &&& semantic::node_unique_id(self.ours[o as int]) is Some
        &&& semantic::node_unique_id(self.theirs[t as int]) is Some
    }

    /// Whether an addition of ours may be an addition of theirs, under the same
    /// parent: they have the same class and name, and where both have a unique id,
    /// which then is not the same, they are similar.
    pub open spec fn alike(self, o: usize, t: usize) -> bool {
        &&& self.ours[o as int].class == self.theirs[t as int].class
        &&& self.ours[o as int].name == self.theirs[t as int].name
        &&& self.both_have_ids(o, t) ==> matching::similar(
            self.ours[o as int],
            self.theirs[t as int],
        )
    }

    pub open spec fn may_be_ours(self, t: usize) -> spec_fn(usize) -> bool {
        |o: usize| self.new_ours()[o as int] && !self.taken_by_id(o as int) && self.alike(o, t)
    }

    pub open spec fn may_be_theirs(self, o: usize) -> spec_fn(usize) -> bool {
        |t: usize| self.new_theirs()[t as int] && self.by_id(t as int) is None && self.alike(o, t)
    }

    /// The additions of ours under `q` that an addition of theirs may be.
    pub open spec fn candidates(self, q: int, t: usize) -> Seq<usize> {
        self.ours[q].children.filter(self.may_be_ours(t))
    }

    /// The additions of theirs under `p` that an addition of ours may be.
    pub open spec fn rivals(self, p: int, o: usize) -> Seq<usize> {
        self.theirs[p].children.filter(self.may_be_theirs(o))
    }

    /// The addition of ours that is instance `t` of theirs. Where it is not the
    /// unique id that says so, it must be the only one that `t` may be, and `t`
    /// the only one that it may be.
    #[verifier::opaque]
    pub open spec fn partner(self, t: int) -> Option<usize>
        decreases t, 1int,
    {
        if self.by_id(t) is Some {
            self.by_id(t)
        } else {
            match self.parent_in_ours(t) {
                Some(q) => {
                    let candidates = self.candidates(q as int, t as usize);
                    if candidates.len() == 1 && self.rivals(
                        self.theirs[t].parent->0 as int,
                        candidates[0],
                    ).len() == 1 {
                        Some(candidates[0])
                    } else {
                        None
                    }
                },
                None => None,
            }
        }
    }

    /// The instance of ours that is the parent of instance `t` of theirs.
    pub open spec fn parent_in_ours(self, t: int) -> Option<usize>
        decreases t, 0int,
    {
        if 0 < t < self.theirs.len() && self.theirs[t].parent is Some && self.theirs[t].parent->0
            < t {
            let p = self.theirs[t].parent->0 as int;
            if self.new_theirs()[p] {
                self.partner(p)
            } else {
                self.base_to_ours[source_of(self.base_to_theirs, p)]
            }
        } else {
            None
        }
    }

    /// Whether an addition of theirs has candidates, but none beyond doubt.
    pub open spec fn ambiguous(self, t: int) -> bool {
        &&& self.new_theirs()[t]
        &&& self.by_id(t) is None
        &&& self.partner(t) is None
        &&& self.parent_in_ours(t) is Some
        &&& self.candidates(self.parent_in_ours(t)->0 as int, t as usize).len() > 0
    }

    pub open spec fn wf(self) -> bool {
        &&& semantic::dom_wf(self.ours)
        &&& semantic::dom_wf(self.theirs)
        &&& matches_wf(self.base_to_ours, self.ours.len() as int)
        &&& matches_wf(self.base_to_theirs, self.theirs.len() as int)
        &&& self.base_to_ours.len() == self.base_to_theirs.len()
    }
}

pub proof fn lemma_source_of(matches: Seq<Option<usize>>, count: int, i: int)
    requires
        matches_wf(matches, count),
        count <= usize::MAX,
        0 <= i < matches.len(),
        matches[i] is Some,
    ensures
        is_target(matches, matches[i]->0 as int),
        source_of(matches, matches[i]->0 as int) == i,
{
    let j = matches[i]->0;
    assert(matches[i] == Some(j as int as usize));
    let k = source_of(matches, j as int);
    assert(matches[k] == matches[i]);
}

pub proof fn lemma_is_target(matches: Seq<Option<usize>>, j: int)
    requires
        is_target(matches, j),
    ensures
        0 <= source_of(matches, j) < matches.len(),
        matches[source_of(matches, j)] == Some(j as usize),
{
}

/// The parent's counterpart, and what candidates are.
proof fn lemma_candidates(a: Additions, q: int, t: usize)
    requires
        a.wf(),
        0 <= q < a.ours.len(),
    ensures
        lists::increasing(a.candidates(q, t)),
        forall|i: int|
            0 <= i < a.candidates(q, t).len() ==> {
                let o = #[trigger] a.candidates(q, t)[i];
                &&& q < o < a.ours.len()
                &&& a.ours[o as int].parent == Some(q as usize)
                &&& a.new_ours()[o as int]
                &&& !a.taken_by_id(o as int)
                &&& a.alike(o, t)
            },
{
    matching::lemma_children(a.ours, q);
    lists::lemma_filter_increasing(a.ours[q].children, a.may_be_ours(t));
    let c = a.candidates(q, t);
    assert forall|i: int| 0 <= i < c.len() implies ({
        let o = #[trigger] c[i];
        &&& q < o < a.ours.len()
        &&& a.ours[o as int].parent == Some(q as usize)
        &&& a.new_ours()[o as int]
        &&& !a.taken_by_id(o as int)
        &&& a.alike(o, t)
    }) by {
        assert(c.contains(c[i]));
        lists::lemma_filter_mem(a.ours[q].children, a.may_be_ours(t), c[i]);
        let k = a.ours[q].children.index_of(c[i]);
        assert(a.ours[q].children[k] == c[i]);
    }
}

/// A counterpart of an addition is an addition of ours; the counterpart of a
/// parent is an instance of ours.
pub proof fn lemma_added_partner(a: Additions, t: int)
    requires
        a.wf(),
        0 <= t < a.theirs.len(),
    ensures
        a.partner(t) is Some ==> {
            &&& a.partner(t)->0 < a.ours.len()
            &&& a.new_ours()[a.partner(t)->0 as int]
        },
        a.parent_in_ours(t) is Some ==> a.parent_in_ours(t)->0 < a.ours.len(),
        a.by_id(t) is None && a.partner(t) is Some ==> {
            let o = a.partner(t)->0;
            &&& a.ours[o as int].parent == a.parent_in_ours(t)
            &&& !a.taken_by_id(o as int)
            &&& a.alike(o, t as usize)
        },
    decreases t,
{
    reveal(Additions::partner);
    if 0 < t && a.theirs[t].parent is Some && a.theirs[t].parent->0 < t {
        let p = a.theirs[t].parent->0 as int;
        lemma_added_partner(a, p);
        if !a.new_theirs()[p] {
            lemma_is_target(a.base_to_theirs, p);
        }
    }
    if a.by_id(t) is Some {
        matching::lemma_id_match_some(a.theirs, a.new_theirs(), t, a.ours, a.new_ours());
    } else if a.parent_in_ours(t) is Some {
        lemma_candidates(a, a.parent_in_ours(t)->0 as int, t as usize);
    }
}

/// The counterparts of two parents are different.
proof fn lemma_parent_injective(a: Additions, t: int, u: int)
    requires
        a.wf(),
        0 <= t < a.theirs.len(),
        0 <= u < a.theirs.len(),
        a.parent_in_ours(t) is Some,
        a.parent_in_ours(t) == a.parent_in_ours(u),
    ensures
        a.theirs[t].parent == a.theirs[u].parent,
    decreases t + u, 0int,
{
    reveal(Additions::partner);
    let p = a.theirs[t].parent->0 as int;
    let r = a.theirs[u].parent->0 as int;
    let q = a.parent_in_ours(t)->0;
    lemma_added_partner(a, p);
    lemma_added_partner(a, r);
    if a.new_theirs()[p] && a.new_theirs()[r] {
        lemma_added_injective(a, p, r);
    } else if a.new_theirs()[p] {
        lemma_is_target(a.base_to_theirs, r);
        let i = source_of(a.base_to_theirs, r);
        assert(a.base_to_ours[i] == Some(q as int as usize));
        assert(is_target(a.base_to_ours, q as int));
    } else if a.new_theirs()[r] {
        lemma_is_target(a.base_to_theirs, p);
        let i = source_of(a.base_to_theirs, p);
        assert(a.base_to_ours[i] == Some(q as int as usize));
        assert(is_target(a.base_to_ours, q as int));
    } else {
        lemma_is_target(a.base_to_theirs, p);
        lemma_is_target(a.base_to_theirs, r);
        let i = source_of(a.base_to_theirs, p);
        let k = source_of(a.base_to_theirs, r);
        assert(a.base_to_ours[i] == a.base_to_ours[k]);
        assert(i == k);
    }
}

/// No addition of ours is the counterpart of two additions of theirs.
pub proof fn lemma_added_injective(a: Additions, t: int, u: int)
    requires
        a.wf(),
        0 <= t < a.theirs.len(),
        0 <= u < a.theirs.len(),
        a.new_theirs()[t],
        a.new_theirs()[u],
        a.partner(t) is Some,
        a.partner(t) == a.partner(u),
    ensures
        t == u,
    decreases t + u, 1int,
{
    reveal(Additions::partner);
    let o = a.partner(t)->0;
    lemma_added_partner(a, t);
    lemma_added_partner(a, u);
    if a.by_id(t) is Some && a.by_id(u) is Some {
        matching::lemma_id_match_injective(
            a.theirs,
            a.new_theirs(),
            t,
            u,
            a.ours,
            a.new_ours(),
        );
    } else if a.by_id(t) is Some {
        assert(a.by_id(t) == Some(o as int as usize));
        assert(a.taken_by_id(o as int));
    } else if a.by_id(u) is Some {
        assert(a.by_id(u) == Some(o as int as usize));
        assert(a.taken_by_id(o as int));
    } else {
        lemma_parent_injective(a, t, u);
        let p = a.theirs[t].parent->0 as int;
        let rivals = a.rivals(p, o);
        matching::lemma_is_child(a.theirs, t);
        matching::lemma_is_child(a.theirs, u);
        lists::lemma_filter_mem(a.theirs[p].children, a.may_be_theirs(o), t as usize);
        lists::lemma_filter_mem(a.theirs[p].children, a.may_be_theirs(o), u as usize);
        lists::lemma_single(rivals, t as usize);
        lists::lemma_single(rivals, u as usize);
    }
}

/// What was found out about the additions.
pub struct AddedMatches {
    pub new_ours: Vec<bool>,
    pub new_theirs: Vec<bool>,
    pub base_of_theirs: Vec<Option<usize>>,
    pub partners: Vec<Option<usize>>,
    pub ambiguous: Vec<bool>,
}

fn negate(marks: &Vec<bool>) -> (res: Vec<bool>)
    ensures
        res.len() == marks.len(),
        forall|i: int| 0 <= i < res@.len() ==> #[trigger] res@[i] == !marks@[i],
{
    let mut res: Vec<bool> = Vec::new();
    let mut i: usize = 0;
    while i < marks.len()
        invariant
            i <= marks.len(),
            res.len() == i,
            forall|k: int| 0 <= k < i ==> #[trigger] res@[k] == !marks@[k],
        decreases marks.len() - i,
    {
        res.push(!marks[i]);
        i += 1;
    }
    res
}

/// Turns a list of matches round.
pub fn invert(matches: &Vec<Option<usize>>, count: usize) -> (res: Vec<Option<usize>>)
    requires
        matches_wf(matches@, count as int),
    ensures
        res.len() == count,
        forall|j: int|
            0 <= j < count ==> #[trigger] res@[j] == (if is_target(matches@, j) {
                Some(source_of(matches@, j) as usize)
            } else {
                None
            }),
{
    let mut res: Vec<Option<usize>> = Vec::new();
    let mut j: usize = 0;
    while j < count
        invariant
            j <= count,
            res.len() == j,
            forall|k: int| 0 <= k < j ==> #[trigger] res@[k] is None,
        decreases count - j,
    {
        res.push(None);
        j += 1;
    }
    let mut i: usize = 0;
    while i < matches.len()
        invariant
            i <= matches.len(),
            res.len() == count,
            matches_wf(matches@, count as int),
            forall|j: int|
                0 <= j < count ==> #[trigger] res@[j] == (if is_target(matches@, j) && source_of(
                    matches@,
                    j,
                ) < i {
                    Some(source_of(matches@, j) as usize)
                } else {
                    None
                }),
        decreases matches.len() - i,
    {
        let ghost before = res@;
        if let Some(j) = matches[i] {
            proof {
                assert(matches@[i as int] is Some);
                lemma_source_of(matches@, count as int, i as int);
            }
            res.set(j, Some(i));
        }
        proof {
            assert forall|j: int| 0 <= j < count implies #[trigger] res@[j] == (if is_target(
                matches@,
                j,
            ) && source_of(matches@, j) < i + 1 {
                Some(source_of(matches@, j) as usize)
            } else {
                None
            }) by {
                if is_target(matches@, j) && source_of(matches@, j) == i {
                    lemma_is_target(matches@, j);
                    assert(matches@[i as int] == Some(j as usize));
                } else {
                    assert(res@[j] == before[j]);
                }
            }
        }
        i += 1;
    }
    proof {
        assert forall|j: int| 0 <= j < count implies #[trigger] res@[j] == (if is_target(matches@, j) {
            Some(source_of(matches@, j) as usize)
        } else {
            None
        }) by {
            if is_target(matches@, j) {
                lemma_is_target(matches@, j);
            }
        }
    }
    res
}

/// What is known of the additions before they are paired one by one.
struct Ground {
    new_ours: Vec<bool>,
    new_theirs: Vec<bool>,
    base_of_theirs: Vec<Option<usize>>,
    by_id: Vec<Option<usize>>,
    taken: Vec<bool>,
}

impl Ground {
    spec fn describes(&self, a: Additions) -> bool {
        &&& self.new_ours@ == a.new_ours()
        &&& self.new_theirs@ == a.new_theirs()
        &&& self.base_of_theirs.len() == a.theirs.len()
        &&& self.by_id.len() == a.theirs.len()
        &&& self.taken.len() == a.ours.len()
        &&& forall|j: int|
            0 <= j < a.theirs.len() ==> #[trigger] self.base_of_theirs@[j] == (if is_target(
                a.base_to_theirs,
                j,
            ) {
                Some(source_of(a.base_to_theirs, j) as usize)
            } else {
                None
            })
        &&& forall|t: int| 0 <= t < a.theirs.len() ==> #[trigger] self.by_id@[t] == a.by_id(t)
        &&& forall|o: int| 0 <= o < a.ours.len() ==> #[trigger] self.taken@[o] == a.taken_by_id(o)
    }
}

fn lay_ground(
    ours: &SemanticDom,
    theirs: &SemanticDom,
    base_to_ours: &Vec<Option<usize>>,
    base_to_theirs: &Vec<Option<usize>>,
) -> (res: Ground)
    requires
        ours.wf(),
        theirs.wf(),
        (Additions {
            ours: ours@,
            theirs: theirs@,
            base_to_ours: base_to_ours@,
            base_to_theirs: base_to_theirs@,
        }).wf(),
    ensures
        res.describes(
            Additions {
                ours: ours@,
                theirs: theirs@,
                base_to_ours: base_to_ours@,
                base_to_theirs: base_to_theirs@,
            },
        ),
{
    let ghost a = Additions {
        ours: ours@,
        theirs: theirs@,
        base_to_ours: base_to_ours@,
        base_to_theirs: base_to_theirs@,
    };
    let marked_ours = mark_targets(base_to_ours, ours.count());
    let marked_theirs = mark_targets(base_to_theirs, theirs.count());
    let new_ours = negate(&marked_ours);
    let new_theirs = negate(&marked_theirs);
    proof {
        assert forall|o: int| 0 <= o < ours@.len() implies new_ours@[o] == a.new_ours()[o] by {
            assert(new_ours@[o] == !marked_ours@[o]);
            assert(marked_ours@[o] <==> is_target(base_to_ours@, o));
        }
        assert(new_ours@ =~= a.new_ours());
        assert forall|o: int| 0 <= o < theirs@.len() implies new_theirs@[o] == a.new_theirs()[o] by {
            assert(new_theirs@[o] == !marked_theirs@[o]);
            assert(marked_theirs@[o] <==> is_target(base_to_theirs@, o));
        }
        assert(new_theirs@ =~= a.new_theirs());
    }
    let base_of_theirs = invert(base_to_theirs, theirs.count());
    let ours_index = unique_id_index(ours, &new_ours);
    let theirs_index = unique_id_index(theirs, &new_theirs);
    let mut by_id: Vec<Option<usize>> = Vec::new();
    let mut t: usize = 0;
    while t < theirs.count()
        invariant
            t <= theirs@.len(),
            ours.wf(),
            theirs.wf(),
            a.ours == ours@,
            a.theirs == theirs@,
            new_ours@ == a.new_ours(),
            new_theirs@ == a.new_theirs(),
            matching::id_index(ours@, new_ours@, ours@.len() as int, ours_index@),
            matching::id_index(theirs@, new_theirs@, theirs@.len() as int, theirs_index@),
            by_id.len() == t,
            forall|k: int| 0 <= k < t ==> #[trigger] by_id@[k] == a.by_id(k),
        decreases theirs@.len() - t,
    {
        let entry = find_id_match(
            theirs,
            &new_theirs,
            &theirs_index,
            t,
            ours,
            &new_ours,
            &ours_index,
        );
        by_id.push(entry);
        t += 1;
    }
    proof {
        assert forall|k: int| 0 <= k < by_id@.len() && (#[trigger] by_id@[k]) is Some implies by_id@[k]->0
            < ours@.len() by {
            matching::lemma_id_match_some(a.theirs, a.new_theirs(), k, a.ours, a.new_ours());
        }
    }
    let taken = mark_targets(&by_id, ours.count());
    proof {
        assert forall|o: int| 0 <= o < a.ours.len() implies #[trigger] taken@[o] == a.taken_by_id(o) by {
            if taken@[o] {
                let k = choose|k: int| 0 <= k < by_id@.len() && #[trigger] by_id@[k] == Some(o as usize);
                assert(a.by_id(k) == Some(o as usize));
            } else if a.taken_by_id(o) {
                let k = choose|k: int|
                    0 <= k < a.theirs.len() && #[trigger] a.by_id(k) == Some(o as usize);
                assert(by_id@[k] == Some(o as usize));
            }
        }
    }
    Ground { new_ours, new_theirs, base_of_theirs, by_id, taken }
}

fn is_alike(ours: &SemanticDom, theirs: &SemanticDom, o: usize, t: usize, Ghost(a): Ghost<
    Additions,
>) -> (res: bool)
    requires
        a.ours == ours@,
        a.theirs == theirs@,
        o < ours@.len(),
        t < theirs@.len(),
    ensures
        res == a.alike(o, t),
{
    let x = ours.node(o);
    let y = theirs.node(t);
    assert(ours@[o as int] == x@ && theirs@[t as int] == y@);
    if !same_text(x.class.as_str(), y.class.as_str()) || !same_text(
        x.name.as_str(),
        y.name.as_str(),
    ) {
        return false;
    }
    let both_have_ids = ours.unique_id(o).is_some() && theirs.unique_id(t).is_some();
    !both_have_ids || is_similar(x, y)
}

fn find_candidates(
    ours: &SemanticDom,
    theirs: &SemanticDom,
    ground: &Ground,
    q: usize,
    t: usize,
    Ghost(a): Ghost<Additions>,
) -> (res: Vec<usize>)
    requires
        a.wf(),
        a.ours == ours@,
        a.theirs == theirs@,
        ground.describes(a),
        q < ours@.len(),
        t < theirs@.len(),
    ensures
        res@ == a.candidates(q as int, t),
{
    let children = &ours.node(q).children;
    let ghost pred = a.may_be_ours(t);
    assert(ours@[q as int].children == children@);
    let mut out: Vec<usize> = Vec::new();
    let mut i: usize = 0;
    proof {
        matching::lemma_children(ours@, q as int);
        lists::lemma_filter_none(children@, pred);
    }
    while i < children.len()
        invariant
            i <= children.len(),
            a.ours == ours@,
            a.theirs == theirs@,
            ground.describes(a),
            t < theirs@.len(),
            pred == a.may_be_ours(t),
            forall|k: int| 0 <= k < children@.len() ==> (#[trigger] children@[k]) < ours@.len(),
            out@ == children@.take(i as int).filter(pred),
        decreases children.len() - i,
    {
        proof {
            lists::lemma_filter_step(children@, pred, i as int);
        }
        let o: usize = children[i];
        assert(ground.taken@[o as int] == a.taken_by_id(o as int));
        if ground.new_ours[o] && !ground.taken[o] && is_alike(ours, theirs, o, t, Ghost(a)) {
            out.push(o);
        }
        i += 1;
    }
    proof {
        lists::lemma_filter_all(children@, pred);
    }
    out
}

fn find_rivals(
    ours: &SemanticDom,
    theirs: &SemanticDom,
    ground: &Ground,
    p: usize,
    o: usize,
    Ghost(a): Ghost<Additions>,
) -> (res: Vec<usize>)
    requires
        a.wf(),
        a.ours == ours@,
        a.theirs == theirs@,
        ground.describes(a),
        p < theirs@.len(),
        o < ours@.len(),
    ensures
        res@ == a.rivals(p as int, o),
{
    let children = &theirs.node(p).children;
    let ghost pred = a.may_be_theirs(o);
    assert(theirs@[p as int].children == children@);
    let mut out: Vec<usize> = Vec::new();
    let mut i: usize = 0;
    proof {
        matching::lemma_children(theirs@, p as int);
        lists::lemma_filter_none(children@, pred);
    }
    while i < children.len()
        invariant
            i <= children.len(),
            a.ours == ours@,
            a.theirs == theirs@,
            ground.describes(a),
            o < ours@.len(),
            pred == a.may_be_theirs(o),
            forall|k: int| 0 <= k < children@.len() ==> (#[trigger] children@[k]) < theirs@.len(),
            out@ == children@.take(i as int).filter(pred),
        decreases children.len() - i,
    {
        proof {
            lists::lemma_filter_step(children@, pred, i as int);
        }
        let t: usize = children[i];
        assert(ground.by_id@[t as int] == a.by_id(t as int));
        if ground.new_theirs[t] && ground.by_id[t].is_none() && is_alike(
            ours,
            theirs,
            o,
            t,
            Ghost(a),
        ) {
            out.push(t);
        }
        i += 1;
    }
    proof {
        lists::lemma_filter_all(children@, pred);
    }
    out
}

/// Finds the instance of ours that is the parent of an addition of theirs.
fn find_parent(
    theirs: &SemanticDom,
    base_to_ours: &Vec<Option<usize>>,
    ground: &Ground,
    partners: &Vec<Option<usize>>,
    t: usize,
    Ghost(a): Ghost<Additions>,
) -> (res: Option<usize>)
    requires
        a.wf(),
        a.theirs == theirs@,
        a.base_to_ours == base_to_ours@,
        ground.describes(a),
        0 < t < theirs@.len(),
        partners.len() == t,
        forall|k: int| 0 <= k < t && a.new_theirs()[k] ==> #[trigger] partners@[k] == a.partner(k),
    ensures
        res == a.parent_in_ours(t as int),
{
    proof {
        reveal(Additions::partner);
        matching::lemma_is_child(theirs@, t as int);
    }
    let _count: usize = base_to_ours.len();
    match theirs.node(t).parent {
        Some(p) => {
            assert(ground.new_theirs@[p as int] == a.new_theirs()[p as int]);
            if ground.new_theirs[p] {
                assert(partners@[p as int] == a.partner(p as int));
                partners[p]
            } else {
                assert(is_target(a.base_to_theirs, p as int));
                assert(ground.base_of_theirs@[p as int] == Some(
                    source_of(a.base_to_theirs, p as int) as usize,
                ));
                proof {
                    lemma_is_target(a.base_to_theirs, p as int);
                }
                match ground.base_of_theirs[p] {
                    Some(b) => base_to_ours[b],
                    None => None,
                }
            }
        },
        None => None,
    }
}

/// Pairs one addition of theirs, its parents being paired already.
fn match_addition(
    ours: &SemanticDom,
    theirs: &SemanticDom,
    base_to_ours: &Vec<Option<usize>>,
    ground: &Ground,
    partners: &Vec<Option<usize>>,
    t: usize,
    Ghost(a): Ghost<Additions>,
) -> (res: (Option<usize>, bool))
    requires
        a.wf(),
        a.ours == ours@,
        a.theirs == theirs@,
        a.base_to_ours == base_to_ours@,
        ground.describes(a),
        t < theirs@.len(),
        partners.len() == t,
        forall|k: int| 0 <= k < t && a.new_theirs()[k] ==> #[trigger] partners@[k] == a.partner(k),
        a.new_theirs()[t as int],
    ensures
        res.0 == a.partner(t as int),
        res.1 == a.ambiguous(t as int),
{
    reveal(Additions::partner);
    assert(ground.by_id@[t as int] == a.by_id(t as int));
    if let Some(o) = ground.by_id[t] {
        return (Some(o), false);
    }
    proof {
        lemma_added_partner(a, t as int);
        if t == 0 {
            assert(a.base_to_theirs[0] == Some(0int as usize));
            assert(is_target(a.base_to_theirs, 0));
        }
        matching::lemma_is_child(theirs@, t as int);
    }
    let counterpart = find_parent(theirs, base_to_ours, ground, partners, t, Ghost(a));
    let q: usize = match counterpart {
        Some(q) => q,
        None => {
            return (None, false);
        },
    };
    let candidates = find_candidates(ours, theirs, ground, q, t, Ghost(a));
    if candidates.len() == 0 {
        return (None, false);
    }
    if candidates.len() == 1 {
        let o: usize = candidates[0];
        proof {
            lemma_candidates(a, q as int, t);
            assert(a.candidates(q as int, t)[0] == o);
        }
        if let Some(p) = theirs.node(t).parent {
            let rivals = find_rivals(ours, theirs, ground, p, o, Ghost(a));
            if rivals.len() == 1 {
                return (Some(o), false);
            }
        }
    }
    (None, true)
}

/// Pairs the additions of the two sides.
pub fn match_additions(
    ours: &SemanticDom,
    theirs: &SemanticDom,
    base_to_ours: &Vec<Option<usize>>,
    base_to_theirs: &Vec<Option<usize>>,
) -> (res: AddedMatches)
    requires
        ours.wf(),
        theirs.wf(),
        (Additions {
            ours: ours@,
            theirs: theirs@,
            base_to_ours: base_to_ours@,
            base_to_theirs: base_to_theirs@,
        }).wf(),
    ensures
        ({
            let a = Additions {
                ours: ours@,
                theirs: theirs@,
                base_to_ours: base_to_ours@,
                base_to_theirs: base_to_theirs@,
            };
            &&& res.new_ours@ == a.new_ours()
            &&& res.new_theirs@ == a.new_theirs()
            &&& res.base_of_theirs.len() == theirs@.len()
            &&& res.partners.len() == theirs@.len()
            &&& res.ambiguous.len() == theirs@.len()
            &&& forall|j: int|
                0 <= j < theirs@.len() ==> #[trigger] res.base_of_theirs@[j] == (if is_target(
                    base_to_theirs@,
                    j,
                ) {
                    Some(source_of(base_to_theirs@, j) as usize)
                } else {
                    None
                })
            &&& forall|t: int|
                0 <= t < theirs@.len() && a.new_theirs()[t] ==> #[trigger] res.partners@[t]
                    == a.partner(t)
            &&& forall|t: int|
                0 <= t < theirs@.len() ==> #[trigger] res.ambiguous@[t] == a.ambiguous(t)
        }),
{
    let ghost a = Additions {
        ours: ours@,
        theirs: theirs@,
        base_to_ours: base_to_ours@,
        base_to_theirs: base_to_theirs@,
    };
    let ground = lay_ground(ours, theirs, base_to_ours, base_to_theirs);
    let mut partners: Vec<Option<usize>> = Vec::new();
    let mut ambiguous: Vec<bool> = Vec::new();
    let mut t: usize = 0;
    while t < theirs.count()
        invariant
            t <= theirs@.len(),
            a.wf(),
            a.ours == ours@,
            a.theirs == theirs@,
            a.base_to_ours == base_to_ours@,
            ground.describes(a),
            partners.len() == t,
            ambiguous.len() == t,
            forall|k: int|
                0 <= k < t && a.new_theirs()[k] ==> #[trigger] partners@[k] == a.partner(k),
            forall|k: int| 0 <= k < t ==> #[trigger] ambiguous@[k] == a.ambiguous(k),
        decreases theirs@.len() - t,
    {
        if ground.new_theirs[t] {
            let (partner, doubt): (Option<usize>, bool) = match_addition(
                ours,
                theirs,
                base_to_ours,
                &ground,
                &partners,
                t,
                Ghost(a),
            );
            partners.push(partner);
            ambiguous.push(doubt);
        } else {
            partners.push(None);
            ambiguous.push(false);
        }
        t += 1;
    }
    AddedMatches {
        new_ours: ground.new_ours,
        new_theirs: ground.new_theirs,
        base_of_theirs: ground.base_of_theirs,
        partners,
        ambiguous,
    }
}

} // verus!
