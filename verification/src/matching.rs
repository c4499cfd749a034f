//! Which instances of a side are the instances of the base: by unique id, by
//! service class, by position among siblings of the same class and name, and by
//! similarity under a new name.

use std::collections::HashMap;

use rbx_reflection::ReflectionDatabase;
use vstd::prelude::*;

use crate::dom;
use crate::dom::is_service_class;
use crate::keyed;
use crate::keyed::{find, list_keys, merge_keys};
use crate::lists;
use crate::semantic;
use crate::semantic::{DomModel, InstanceModel, SemanticDom, SemanticInstance};
use crate::text;
use crate::text::{same_text, Text};
use crate::value;
use crate::value::same_raw;

verus! {

broadcast use vstd::std_specs::hash::group_hash_axioms;

/// The classes of the reflection database.
pub type Classes = Map<Text, dom::ClassModel>;

// ---------------------------------------------------------------------------
// Similarity
// ---------------------------------------------------------------------------

/// Everything but the unique id, which is identity and no content.
pub open spec fn is_content_key() -> spec_fn(Text) -> bool {
    |k: Text| k != dom::unique_id_key()
}

/// The names of the properties that either instance has, but for the unique id.
pub open spec fn content_keys(a: InstanceModel, b: InstanceModel) -> Seq<Text> {
    keyed::key_union(keyed::keys_of(a.properties), keyed::keys_of(b.properties)).filter(
        is_content_key(),
    )
}

/// Whether both instances have a property, with the same value.
pub open spec fn equal_under(a: InstanceModel, b: InstanceModel, key: Text) -> bool {
    match (keyed::lookup(a.properties, key), keyed::lookup(b.properties, key)) {
        (Some(x), Some(y)) => value::raw_equal(x, y),
        _ => false,
    }
}

/// How many of the properties are the same.
pub open spec fn count_equal(a: InstanceModel, b: InstanceModel, keys: Seq<Text>) -> nat
    decreases keys.len(),
{
    if keys.len() == 0 {
        0
    } else {
        count_equal(a, b, keys.drop_last()) + if equal_under(a, b, keys.last()) {
            1nat
        } else {
            0nat
        }
    }
}

/// Whether two instances are similar enough to be one instance under two names:
/// of their properties, and of the number of their children counted as one
/// property more, four fifths are the same.
pub open spec fn similar(a: InstanceModel, b: InstanceModel) -> bool {
    let keys = content_keys(a, b);
    let children = if a.children.len() == b.children.len() {
        1int
    } else {
        0int
    };
    5 * (count_equal(a, b, keys) + children) >= 4 * (keys.len() + 1)
}

/// Compares two instances' content.
pub fn is_similar(a: &SemanticInstance, b: &SemanticInstance) -> (res: bool)
    ensures
        res == similar(a@, b@),
{
    let keys = merge_keys(&list_keys(&a.properties), &list_keys(&b.properties));
    let ghost all = text::strings_view(keys@);
    let ghost content = content_keys(a@, b@);
    let mut total: u128 = 0;
    let mut equal: u128 = 0;
    let mut i: usize = 0;
    proof {
        lists::lemma_filter_none(all, is_content_key());
    }
    while i < keys.len()
        invariant
            i <= keys.len(),
            all == text::strings_view(keys@),
            all == keyed::key_union(keyed::keys_of(a@.properties), keyed::keys_of(b@.properties)),
            total == all.take(i as int).filter(is_content_key()).len(),
            equal == count_equal(a@, b@, all.take(i as int).filter(is_content_key())),
            equal <= total <= i,
        decreases keys.len() - i,
    {
        let key = keys[i].as_str();
        proof {
            lists::lemma_filter_step(all, is_content_key(), i as int);
            assert(all[i as int] == key@);
            let seen = all.take(i as int).filter(is_content_key());
            assert(seen.push(key@).drop_last() =~= seen);
        }
        if !same_text(key, "UniqueId") {
            total += 1;
            match (find(&a.properties, key), find(&b.properties, key)) {
                (Some(x), Some(y)) => {
                    if same_raw(x, y) {
                        equal += 1;
                    }
                },
                _ => {},
            }
        }
        i += 1;
    }
    proof {
        lists::lemma_filter_all(all, is_content_key());
    }
    let children: u128 = if a.children.len() == b.children.len() {
        1
    } else {
        0
    };
    5 * (equal + children) >= 4 * (total + 1)
}

// ---------------------------------------------------------------------------
// Unique ids
// ---------------------------------------------------------------------------

/// Instance `i` is one of those considered and has the unique id.
pub open spec fn holds_id(d: DomModel, considered: Seq<bool>, i: int, id: u128) -> bool {
    &&& 0 <= i < d.len()
    &&& considered[i]
    &&& semantic::node_unique_id(d[i]) == Some(id)
}

/// Instance `i` alone has the unique id.
pub open spec fn is_sole(d: DomModel, considered: Seq<bool>, i: int, id: u128) -> bool {
    &&& holds_id(d, considered, i, id)
    &&& forall|j: int| #[trigger] holds_id(d, considered, j, id) ==> j == i
}

/// The instance that alone has the unique id.
pub open spec fn sole_holder(d: DomModel, considered: Seq<bool>, id: u128) -> Option<usize> {
    if exists|i: int| is_sole(d, considered, i, id) {
        Some((choose|i: int| is_sole(d, considered, i, id)) as usize)
    } else {
        None
    }
}

pub proof fn lemma_sole(d: DomModel, considered: Seq<bool>, i: int, id: u128)
    requires
        d.len() <= usize::MAX,
        is_sole(d, considered, i, id),
    ensures
        sole_holder(d, considered, id) == Some(i as usize),
{
    let k = choose|k: int| is_sole(d, considered, k, id);
    assert(is_sole(d, considered, k, id));
    assert(holds_id(d, considered, k, id));
}

proof fn lemma_sole_holder(d: DomModel, considered: Seq<bool>, id: u128)
    requires
        d.len() <= usize::MAX,
        sole_holder(d, considered, id) is Some,
    ensures
        is_sole(d, considered, sole_holder(d, considered, id)->0 as int, id),
{
}

/// The instance of `e` that shares its unique id with instance `i` of `d`, where
/// each of the two alone has it.
pub open spec fn id_match(
    d: DomModel,
    considered_d: Seq<bool>,
    i: int,
    e: DomModel,
    considered_e: Seq<bool>,
) -> Option<usize> {
    match semantic::node_unique_id(d[i]) {
        Some(id) => if is_sole(d, considered_d, i, id) {
            sole_holder(e, considered_e, id)
        } else {
            None
        },
        None => None,
    }
}

/// Two instances do not match the same one.
pub proof fn lemma_id_match_injective(
    d: DomModel,
    considered_d: Seq<bool>,
    i: int,
    k: int,
    e: DomModel,
    considered_e: Seq<bool>,
)
    requires
        e.len() <= usize::MAX,
        id_match(d, considered_d, i, e, considered_e) is Some,
        id_match(d, considered_d, k, e, considered_e) == id_match(
            d,
            considered_d,
            i,
            e,
            considered_e,
        ),
    ensures
        i == k,
{
    let u = semantic::node_unique_id(d[i])->0;
    let v = semantic::node_unique_id(d[k])->0;
    lemma_sole_holder(e, considered_e, u);
    lemma_sole_holder(e, considered_e, v);
    assert(u == v);
    assert(holds_id(d, considered_d, k, u));
}

pub proof fn lemma_id_match_some(
    d: DomModel,
    considered_d: Seq<bool>,
    i: int,
    e: DomModel,
    considered_e: Seq<bool>,
)
    requires
        e.len() <= usize::MAX,
        id_match(d, considered_d, i, e, considered_e) is Some,
    ensures
        ({
            let j = id_match(d, considered_d, i, e, considered_e)->0;
            &&& j < e.len()
            &&& considered_e[j as int]
            &&& considered_d[i]
            &&& 0 <= i < d.len()
        }),
{
    let u = semantic::node_unique_id(d[i])->0;
    lemma_sole_holder(e, considered_e, u);
}

/// An index of unique ids: the holder, or nothing where there are several.
pub open spec fn id_index(d: DomModel, considered: Seq<bool>, n: int, index: Map<u128, Option<usize>>) -> bool {
    &&& forall|u: u128, i: int|
        0 <= i < n && #[trigger] holds_id(d, considered, i, u) ==> index.contains_key(u)
    &&& forall|u: u128| #[trigger]
        index.contains_key(u) ==> match index[u] {
            Some(x) => {
                &&& x < n
                &&& holds_id(d, considered, x as int, u)
                &&& forall|j: int| 0 <= j < n && #[trigger] holds_id(d, considered, j, u) ==> j == x
            },
            None => exists|i: int, j: int|
                #![trigger holds_id(d, considered, i, u), holds_id(d, considered, j, u)]
                0 <= i < j < n && holds_id(d, considered, i, u) && holds_id(d, considered, j, u),
        }
}

/// Indexes the unique ids of the instances considered.
pub fn unique_id_index(dom: &SemanticDom, considered: &Vec<bool>) -> (res: HashMap<
    u128,
    Option<usize>,
>)
    requires
        considered.len() == dom@.len(),
    ensures
        id_index(dom@, considered@, dom@.len() as int, res@),
{
    let mut index: HashMap<u128, Option<usize>> = HashMap::new();
    let ghost d = dom@;
    let mut i: usize = 0;
    while i < considered.len()
        invariant
            i <= dom@.len(),
            d == dom@,
            considered.len() == d.len(),
            id_index(d, considered@, i as int, index@),
        decreases dom@.len() - i,
    {
        let ghost before = index@;
        if considered[i] {
            if let Some(u) = dom.unique_id(i) {
                let ghost here = holds_id(d, considered@, i as int, u);
                let seen: bool = index.contains_key(&u);
                if seen {
                    index.insert(u, None);
                } else {
                    index.insert(u, Some(i));
                }
                proof {
                    assert(holds_id(d, considered@, i as int, u));
                    assert forall|v: u128| #[trigger] index@.contains_key(v) implies match index@[v] {
                        Some(x) => {
                            &&& x < i + 1
                            &&& holds_id(d, considered@, x as int, v)
                            &&& forall|j: int|
                                0 <= j < i + 1 && #[trigger] holds_id(d, considered@, j, v) ==> j
                                    == x
                        },
                        None => exists|x: int, y: int|
                            #![trigger holds_id(d, considered@, x, v), holds_id(d, considered@, y, v)]
                            0 <= x < y < i + 1 && holds_id(d, considered@, x, v) && holds_id(
                                d,
                                considered@,
                                y,
                                v,
                            ),
                    } by {
                        if v == u {
                            if seen {
                                match before[u] {
                                    Some(x) => {
                                        assert(holds_id(d, considered@, x as int, v));
                                    },
                                    None => {},
                                }
                            }
                        } else {
                            assert(before.contains_key(v));
                        }
                    }
                }
            }
        }
        i += 1;
    }
    index
}

/// Finds the sole holder of a unique id.
pub fn find_sole(
    dom: &SemanticDom,
    considered: &Vec<bool>,
    index: &HashMap<u128, Option<usize>>,
    id: u128,
) -> (res: Option<usize>)
    requires
        dom@.len() <= usize::MAX,
        considered.len() == dom@.len(),
        id_index(dom@, considered@, dom@.len() as int, index@),
    ensures
        res == sole_holder(dom@, considered@, id),
{
    match index.get(&id) {
        Some(entry) => {
            proof {
                match *entry {
                    Some(x) => {
                        assert(is_sole(dom@, considered@, x as int, id));
                        lemma_sole(dom@, considered@, x as int, id);
                    },
                    None => {
                        if exists|i: int| is_sole(dom@, considered@, i, id) {
                            let i = choose|i: int| is_sole(dom@, considered@, i, id);
                            assert(holds_id(dom@, considered@, i, id));
                        }
                    },
                }
            }
            *entry
        },
        None => {
            proof {
                if exists|i: int| is_sole(dom@, considered@, i, id) {
                    let i = choose|i: int| is_sole(dom@, considered@, i, id);
                    assert(holds_id(dom@, considered@, i, id));
                }
            }
            None
        },
    }
}

/// Finds the instance that shares its unique id with an instance.
pub fn find_id_match(
    dom: &SemanticDom,
    considered: &Vec<bool>,
    index: &HashMap<u128, Option<usize>>,
    i: usize,
    other: &SemanticDom,
    other_considered: &Vec<bool>,
    other_index: &HashMap<u128, Option<usize>>,
) -> (res: Option<usize>)
    requires
        dom@.len() <= usize::MAX,
        other@.len() <= usize::MAX,
        considered.len() == dom@.len(),
        other_considered.len() == other@.len(),
        id_index(dom@, considered@, dom@.len() as int, index@),
        id_index(other@, other_considered@, other@.len() as int, other_index@),
        i < dom@.len(),
    ensures
        res == id_match(dom@, considered@, i as int, other@, other_considered@),
{
    match dom.unique_id(i) {
        Some(u) => {
            let holder = find_sole(dom, considered, index, u);
            if holder == Some(i) {
                proof {
                    lemma_sole_holder(dom@, considered@, u);
                }
                find_sole(other, other_considered, other_index, u)
            } else {
                proof {
                    if is_sole(dom@, considered@, i as int, u) {
                        lemma_sole(dom@, considered@, i as int, u);
                    }
                }
                None
            }
        },
        None => None,
    }
}

// ---------------------------------------------------------------------------
// Matching the base with a side
// ---------------------------------------------------------------------------

/// The inputs of the matching of a base with a side.
pub ghost struct Matching {
    pub base: DomModel,
    pub side: DomModel,
    pub classes: Classes,
}

pub open spec fn all_of(d: DomModel) -> Seq<bool> {
    Seq::new(d.len(), |i: int| true)
}

pub open spec fn of_class(d: DomModel, class: Text) -> spec_fn(usize) -> bool {
    |c: usize| d[c as int].class == class
}

pub open spec fn of_class_and_name(d: DomModel, class: Text, name: Text) -> spec_fn(usize) -> bool {
    |c: usize| d[c as int].class == class && d[c as int].name == name
}

/// The members of a list that have that class and name.
pub open spec fn group_of(d: DomModel, list: Seq<usize>, class: Text, name: Text) -> Seq<usize> {
    list.filter(of_class_and_name(d, class, name))
}

/// Instance `c` of the base is paired with the instance of the side that has its
/// place among the siblings of the same class and name.
pub open spec fn by_position(
    b: DomModel,
    s: DomModel,
    free_base: Seq<usize>,
    free_side: Seq<usize>,
    c: usize,
) -> Option<usize> {
    let own = group_of(b, free_base, b[c as int].class, b[c as int].name);
    let other = group_of(s, free_side, b[c as int].class, b[c as int].name);
    let place = own.index_of(c);
    if own.contains(c) && place < other.len() {
        Some(other[place])
    } else {
        None
    }
}

pub open spec fn left_over(
    b: DomModel,
    s: DomModel,
    free_base: Seq<usize>,
    free_side: Seq<usize>,
) -> spec_fn(usize) -> bool {
    |c: usize| by_position(b, s, free_base, free_side, c) is None
}

/// Instance `c` of the base is the only one of its class that its place among
/// its siblings did not pair, so is an instance of the side, and the two are
/// similar: they are one instance that got a new name.
pub open spec fn by_rename(
    b: DomModel,
    s: DomModel,
    free_base: Seq<usize>,
    free_side: Seq<usize>,
    c: usize,
) -> Option<usize> {
    let class = b[c as int].class;
    let own = free_base.filter(left_over(b, s, free_base, free_side)).filter(of_class(b, class));
    let other = free_side.filter(left_over(s, b, free_side, free_base)).filter(of_class(s, class));
    if own == seq![c] && other.len() == 1 && similar(b[c as int], s[other[0] as int]) {
        Some(other[0])
    } else {
        None
    }
}

impl Matching {
    /// The match by unique id; roots are matched otherwise.
    pub open spec fn by_id(self, i: int) -> Option<usize> {
        if i <= 0 {
            None
        } else {
            match id_match(self.base, all_of(self.base), i, self.side, all_of(self.side)) {
                Some(j) if j != 0 => Some(j),
                _ => None,
            }
        }
    }

    pub open spec fn taken_by_id(self, j: int) -> bool {
        exists|i: int| 0 <= i < self.base.len() && #[trigger] self.by_id(i) == Some(j as usize)
    }

    /// The children of the root that have that class.
    pub open spec fn top_level(d: DomModel, class: Text) -> Seq<usize> {
        d[0].children.filter(of_class(d, class))
    }

    /// The match of a service, which is the only child of the root of its class,
    /// with the one of the side.
    pub open spec fn by_service(self, i: int) -> Option<usize> {
        let class = self.base[i].class;
        let own = Matching::top_level(self.base, class);
        let other = Matching::top_level(self.side, class);
        if self.classes.contains_key(class) && self.classes[class].service && own == seq![
            i as usize,
        ] && other.len() == 1 && self.by_id(i) is None && !self.taken_by_id(other[0] as int) {
            Some(other[0])
        } else {
            None
        }
    }

    /// The matches that do not depend on the matches of parents.
    pub open spec fn first(self, i: int) -> Option<usize> {
        if i == 0 {
            Some(0)
        } else if self.by_id(i) is Some {
            self.by_id(i)
        } else {
            self.by_service(i)
        }
    }

    pub open spec fn taken_first(self, j: int) -> bool {
        exists|i: int| 0 <= i < self.base.len() && #[trigger] self.first(i) == Some(j as usize)
    }

    pub open spec fn is_free_base(self) -> spec_fn(usize) -> bool {
        |c: usize| self.first(c as int) is None
    }

    pub open spec fn is_free_side(self) -> spec_fn(usize) -> bool {
        |c: usize| !self.taken_first(c as int)
    }

    /// The children of a base instance that are not matched yet.
    pub open spec fn free_base(self, p: int) -> Seq<usize> {
        self.base[p].children.filter(self.is_free_base())
    }

    /// The children of a side instance that are not matched yet.
    pub open spec fn free_side(self, q: int) -> Seq<usize> {
        self.side[q].children.filter(self.is_free_side())
    }

    /// The match of a child of `p`, where `p` is matched with `q`.
    pub open spec fn under(self, p: int, q: int, c: usize) -> Option<usize> {
        let free_base = self.free_base(p);
        let free_side = self.free_side(q);
        match by_position(self.base, self.side, free_base, free_side, c) {
            Some(j) => Some(j),
            None => by_rename(self.base, self.side, free_base, free_side, c),
        }
    }

    /// The instance of the side that is instance `i` of the base.
    pub open spec fn partner(self, i: int) -> Option<usize>
        decreases i,
    {
        if self.first(i) is Some {
            self.first(i)
        } else {
            match self.base[i].parent {
                Some(p) if p < i => match self.partner(p as int) {
                    Some(q) => self.under(p as int, q as int, i as usize),
                    None => None,
                },
                _ => None,
            }
        }
    }

    pub open spec fn wf(self) -> bool {
        semantic::dom_wf(self.base) && semantic::dom_wf(self.side)
    }
}

/// Marks the instances that a list of matches points at.
pub fn mark_targets(matches: &Vec<Option<usize>>, count: usize) -> (res: Vec<bool>)
    requires
        forall|i: int|
            0 <= i < matches@.len() && (#[trigger] matches@[i]) is Some ==> matches@[i]->0 < count,
    ensures
        res.len() == count,
        forall|j: int|
            0 <= j < count ==> (#[trigger] res@[j] <==> exists|i: int|
                0 <= i < matches@.len() && #[trigger] matches@[i] == Some(j as usize)),
{
    let mut marks: Vec<bool> = Vec::new();
    let mut j: usize = 0;
    while j < count
        invariant
            j <= count,
            marks.len() == j,
            forall|k: int| 0 <= k < j ==> !(#[trigger] marks@[k]),
        decreases count - j,
    {
        marks.push(false);
        j += 1;
    }
    let mut i: usize = 0;
    while i < matches.len()
        invariant
            i <= matches.len(),
            marks.len() == count,
            forall|i: int|
                0 <= i < matches@.len() && (#[trigger] matches@[i]) is Some ==> matches@[i]->0
                    < count,
            forall|j: int|
                0 <= j < count ==> (#[trigger] marks@[j] <==> exists|k: int|
                    0 <= k < i && #[trigger] matches@[k] == Some(j as usize)),
        decreases matches.len() - i,
    {
        let ghost before = marks@;
        if let Some(j) = matches[i] {
            assert(matches@[i as int] is Some);
            marks.set(j, true);
            proof {
                assert forall|x: int| 0 <= x < count implies (#[trigger] marks@[x] <==> exists|k: int|
                    0 <= k < i + 1 && #[trigger] matches@[k] == Some(x as usize)) by {
                    if x == j {
                        assert(matches@[i as int] == Some(x as usize));
                    } else {
                        assert(marks@[x] == before[x]);
                        if before[x] {
                            let k = choose|k: int|
                                0 <= k < i && #[trigger] matches@[k] == Some(x as usize);
                            assert(matches@[k] == Some(x as usize));
                        }
                    }
                }
            }
        } else {
            proof {
                assert forall|x: int| 0 <= x < count implies (#[trigger] marks@[x] <==> exists|k: int|
                    0 <= k < i + 1 && #[trigger] matches@[k] == Some(x as usize)) by {
                    if before[x] {
                        let k = choose|k: int|
                            0 <= k < i && #[trigger] matches@[k] == Some(x as usize);
                        assert(matches@[k] == Some(x as usize));
                    }
                }
            }
        }
        i += 1;
    }
    marks
}

/// Considers every instance.
fn consider_all(dom: &SemanticDom) -> (res: Vec<bool>)
    requires
        dom.wf(),
    ensures
        res@ == all_of(dom@),
{
    let mut res: Vec<bool> = Vec::new();
    let mut i: usize = 0;
    while i < dom.count()
        invariant
            dom.wf(),
            i <= dom@.len(),
            res.len() == i,
            forall|k: int| 0 <= k < i ==> #[trigger] res@[k],
        decreases dom@.len() - i,
    {
        res.push(true);
        i += 1;
    }
    assert(res@ =~= all_of(dom@));
    res
}

/// The members of `list` that have that class.
fn members_of_class(dom: &SemanticDom, list: &Vec<usize>, class: &str) -> (res: Vec<usize>)
    requires
        forall|i: int| 0 <= i < list@.len() ==> (#[trigger] list@[i]) < dom@.len(),
    ensures
        res@ == list@.filter(of_class(dom@, class@)),
{
    let ghost pred = of_class(dom@, class@);
    let mut out: Vec<usize> = Vec::new();
    let mut i: usize = 0;
    proof {
        lists::lemma_filter_none(list@, pred);
    }
    while i < list.len()
        invariant
            i <= list.len(),
            pred == of_class(dom@, class@),
            forall|i: int| 0 <= i < list@.len() ==> (#[trigger] list@[i]) < dom@.len(),
            out@ == list@.take(i as int).filter(pred),
        decreases list.len() - i,
    {
        let c: usize = list[i];
        proof {
            lists::lemma_filter_step(list@, pred, i as int);
        }
        if same_text(dom.node(c).class.as_str(), class) {
            out.push(c);
        }
        i += 1;
    }
    proof {
        lists::lemma_filter_all(list@, pred);
    }
    out
}

/// The members of `list` that have that class and name.
fn members_of_group(dom: &SemanticDom, list: &Vec<usize>, class: &str, name: &str) -> (res: Vec<
    usize,
>)
    requires
        forall|i: int| 0 <= i < list@.len() ==> (#[trigger] list@[i]) < dom@.len(),
    ensures
        res@ == group_of(dom@, list@, class@, name@),
{
    let ghost pred = of_class_and_name(dom@, class@, name@);
    let mut out: Vec<usize> = Vec::new();
    let mut i: usize = 0;
    proof {
        lists::lemma_filter_none(list@, pred);
    }
    while i < list.len()
        invariant
            i <= list.len(),
            pred == of_class_and_name(dom@, class@, name@),
            forall|i: int| 0 <= i < list@.len() ==> (#[trigger] list@[i]) < dom@.len(),
            out@ == list@.take(i as int).filter(pred),
        decreases list.len() - i,
    {
        let c: usize = list[i];
        proof {
            lists::lemma_filter_step(list@, pred, i as int);
        }
        if same_text(dom.node(c).class.as_str(), class) && same_text(
            dom.node(c).name.as_str(),
            name,
        ) {
            out.push(c);
        }
        i += 1;
    }
    proof {
        lists::lemma_filter_all(list@, pred);
    }
    out
}

pub proof fn lemma_by_id_some(m: Matching, i: int)
    requires
        m.wf(),
        m.by_id(i) is Some,
    ensures
        0 < i < m.base.len(),
        0 < m.by_id(i)->0 < m.side.len(),
{
    lemma_id_match_some(m.base, all_of(m.base), i, m.side, all_of(m.side));
}

pub proof fn lemma_first_some(m: Matching, i: int)
    requires
        m.wf(),
        m.first(i) is Some,
        0 <= i < m.base.len(),
    ensures
        m.first(i)->0 < m.side.len(),
        i == 0 <==> m.first(i)->0 == 0,
{
    if i > 0 {
        if m.by_id(i) is Some {
            lemma_by_id_some(m, i);
        } else {
            let class = m.base[i].class;
            let other = Matching::top_level(m.side, class);
            lemma_children(m.side, 0);
            assert(other.contains(other[0]));
            lists::lemma_filter_mem(m.side[0].children, of_class(m.side, class), other[0]);
            let j = m.side[0].children.index_of(other[0]);
            assert(m.side[0].children[j] == other[0]);
        }
    }
}

/// Matches what does not depend on the matches of parents: the roots, unique ids
/// and services.
fn match_first(base: &SemanticDom, side: &SemanticDom, db: &ReflectionDatabase<'static>) -> (res:
    Vec<Option<usize>>)
    requires
        base.wf(),
        side.wf(),
    ensures
        ({
            let m = Matching { base: base@, side: side@, classes: dom::classes(*db) };
            &&& res.len() == base@.len()
            &&& forall|i: int| 0 <= i < res@.len() ==> #[trigger] res@[i] == m.first(i)
        }),
{
    let ghost m = Matching { base: base@, side: side@, classes: dom::classes(*db) };
    let all_base = consider_all(base);
    let all_side = consider_all(side);
    let base_index = unique_id_index(base, &all_base);
    let side_index = unique_id_index(side, &all_side);
    let mut ids: Vec<Option<usize>> = Vec::new();
    let mut i: usize = 0;
    while i < base.count()
        invariant
            base.wf(),
            side.wf(),
            m == (Matching { base: base@, side: side@, classes: dom::classes(*db) }),
            all_base@ == all_of(base@),
            all_side@ == all_of(side@),
            id_index(base@, all_base@, base@.len() as int, base_index@),
            id_index(side@, all_side@, side@.len() as int, side_index@),
            i <= base@.len(),
            ids.len() == i,
            forall|k: int| 0 <= k < i ==> #[trigger] ids@[k] == m.by_id(k),
        decreases base@.len() - i,
    {
        let found = find_id_match(base, &all_base, &base_index, i, side, &all_side, &side_index);
        let entry: Option<usize> = match found {
            Some(j) => if i > 0 && j != 0 {
                Some(j)
            } else {
                None
            },
            None => None,
        };
        ids.push(entry);
        i += 1;
    }
    proof {
        assert forall|k: int| 0 <= k < ids@.len() && (#[trigger] ids@[k]) is Some implies ids@[k]->0
            < side@.len() by {
            lemma_by_id_some(m, k);
        }
    }
    let taken = mark_targets(&ids, side.count());
    let mut res: Vec<Option<usize>> = Vec::new();
    res.push(Some(0));
    i = 1;
    while i < base.count()
        invariant
            base.wf(),
            side.wf(),
            m == (Matching { base: base@, side: side@, classes: dom::classes(*db) }),
            ids.len() == base@.len(),
            forall|k: int| 0 <= k < ids@.len() ==> #[trigger] ids@[k] == m.by_id(k),
            taken.len() == side@.len(),
            forall|j: int|
                0 <= j < side@.len() ==> (#[trigger] taken@[j] <==> exists|k: int|
                    0 <= k < ids@.len() && #[trigger] ids@[k] == Some(j as usize)),
            1 <= i <= base@.len(),
            res.len() == i,
            forall|k: int| 0 <= k < i ==> #[trigger] res@[k] == m.first(k),
        decreases base@.len() - i,
    {
        let class = base.node(i).class.as_str();
        let mut entry: Option<usize> = ids[i];
        assert(ids@[i as int] == m.by_id(i as int));
        assert(base@[i as int].class == class@);
        if entry.is_none() && base.node(i).parent == Some(0) && is_service_class(db, class) {
            proof {
                lemma_children(base@, 0);
                lemma_children(side@, 0);
            }
            let own = members_of_class(base, &base.node(0).children, class);
            let other = members_of_class(side, &side.node(0).children, class);
            if own.len() == 1 && own[0] == i && other.len() == 1 {
                assert(own@ =~= seq![i]);
                let j: usize = other[0];
                proof {
                    assert(other@.contains(j));
                    lists::lemma_filter_mem(side@[0].children, of_class(side@, class@), j);
                    let x = side@[0].children.index_of(j);
                    assert(side@[0].children[x] == j);
                    if taken@[j as int] {
                        let k = choose|k: int|
                            0 <= k < ids@.len() && #[trigger] ids@[k] == Some(j as usize);
                        assert(m.by_id(k) == Some(j as usize));
                    } else {
                        assert forall|k: int| 0 <= k < base@.len() implies #[trigger] m.by_id(k)
                            != Some(j as usize) by {
                            assert(ids@[k] == m.by_id(k));
                        }
                    }
                }
                if !taken[j] {
                    entry = Some(j);
                }
            } else {
                assert(own@ != seq![i] || other.len() != 1) by {
                    if own@ == seq![i] {
                        assert(own@[0] == i);
                    }
                }
            }
        } else {
            proof {
                if m.by_service(i as int) is Some {
                    let own = Matching::top_level(base@, class@);
                    assert(own == seq![i]);
                    assert(own.contains(i)) by {
                        assert(own[0] == i);
                    }
                    lists::lemma_filter_mem(base@[0].children, of_class(base@, class@), i);
                    let x = base@[0].children.index_of(i);
                    lemma_children(base@, 0);
                    assert(base@[0].children[x] == i);
                    assert(base@[i as int].parent == Some(0usize));
                }
            }
        }
        res.push(entry);
        i += 1;
    }
    res
}

/// Siblings that were paired by their order.
pub struct PositionalMatch {
    pub base_parent: usize,
    pub class: String,
    pub name: String,
    pub count: usize,
}

/// The mathematical counterpart of [`PositionalMatch`].
#[verifier::ext_equal]
pub ghost struct PositionalModel {
    pub base_parent: usize,
    pub class: Text,
    pub name: Text,
    pub count: usize,
}

impl View for PositionalMatch {
    type V = PositionalModel;

    open spec fn view(&self) -> PositionalModel {
        PositionalModel {
            base_parent: self.base_parent,
            class: self.class@,
            name: self.name@,
            count: self.count,
        }
    }
}

/// An instance that was recognised under a new name.
pub struct RenameMatch {
    pub base_id: usize,
    pub class: String,
    pub from: String,
    pub to: String,
}

/// The mathematical counterpart of [`RenameMatch`].
#[verifier::ext_equal]
pub ghost struct RenameModel {
    pub base_id: usize,
    pub class: Text,
    pub from: Text,
    pub to: Text,
}

impl View for RenameMatch {
    type V = RenameModel;

    open spec fn view(&self) -> RenameModel {
        RenameModel {
            base_id: self.base_id,
            class: self.class@,
            from: self.from@,
            to: self.to@,
        }
    }
}

pub open spec fn positional_view(s: Seq<PositionalMatch>) -> Seq<PositionalModel> {
    s.map_values(|p: PositionalMatch| p@)
}

pub open spec fn renames_view(s: Seq<RenameMatch>) -> Seq<RenameModel> {
    s.map_values(|r: RenameMatch| r@)
}

/// The note on the group of instance `c`, if `c` is its first member, some of it
/// is paired, and more than one could be.
pub open spec fn positional_note(
    b: DomModel,
    s: DomModel,
    free_base: Seq<usize>,
    free_side: Seq<usize>,
    p: usize,
    c: usize,
) -> Seq<PositionalModel> {
    let class = b[c as int].class;
    let name = b[c as int].name;
    let own = group_of(b, free_base, class, name);
    let other = group_of(s, free_side, class, name);
    if own.len() > 0 && own[0] == c && other.len() > 0 && (own.len() > 1 || other.len() > 1) {
        let count = if own.len() <= other.len() {
            own.len()
        } else {
            other.len()
        };
        seq![PositionalModel { base_parent: p, class, name, count: count as usize }]
    } else {
        Seq::empty()
    }
}

/// The notes on the first `n` unmatched children of `p`.
pub open spec fn positional_notes(
    b: DomModel,
    s: DomModel,
    free_base: Seq<usize>,
    free_side: Seq<usize>,
    p: usize,
    n: int,
) -> Seq<PositionalModel>
    decreases n,
{
    if n <= 0 {
        Seq::empty()
    } else {
        positional_notes(b, s, free_base, free_side, p, n - 1) + positional_note(
            b,
            s,
            free_base,
            free_side,
            p,
            free_base[n - 1],
        )
    }
}

/// The note on instance `c`, if it got a new name.
pub open spec fn rename_note(
    b: DomModel,
    s: DomModel,
    free_base: Seq<usize>,
    free_side: Seq<usize>,
    c: usize,
) -> Seq<RenameModel> {
    if by_position(b, s, free_base, free_side, c) is None {
        match by_rename(b, s, free_base, free_side, c) {
            Some(j) => seq![
                RenameModel {
                    base_id: c,
                    class: b[c as int].class,
                    from: b[c as int].name,
                    to: s[j as int].name,
                },
            ],
            None => Seq::empty(),
        }
    } else {
        Seq::empty()
    }
}

pub open spec fn rename_notes(
    b: DomModel,
    s: DomModel,
    free_base: Seq<usize>,
    free_side: Seq<usize>,
    n: int,
) -> Seq<RenameModel>
    decreases n,
{
    if n <= 0 {
        Seq::empty()
    } else {
        rename_notes(b, s, free_base, free_side, n - 1) + rename_note(
            b,
            s,
            free_base,
            free_side,
            free_base[n - 1],
        )
    }
}

impl Matching {
    /// The notes on positional pairs under the first `n` instances of the base.
    pub open spec fn positional(self, n: int) -> Seq<PositionalModel>
        decreases n,
    {
        if n <= 0 {
            Seq::empty()
        } else {
            self.positional(n - 1) + (match self.partner(n - 1) {
                Some(q) => {
                    let free_base = self.free_base(n - 1);
                    positional_notes(
                        self.base,
                        self.side,
                        free_base,
                        self.free_side(q as int),
                        (n - 1) as usize,
                        free_base.len() as int,
                    )
                },
                None => Seq::empty(),
            })
        }
    }

    /// The notes on new names under the first `n` instances of the base.
    pub open spec fn renames(self, n: int) -> Seq<RenameModel>
        decreases n,
    {
        if n <= 0 {
            Seq::empty()
        } else {
            self.renames(n - 1) + (match self.partner(n - 1) {
                Some(q) => {
                    let free_base = self.free_base(n - 1);
                    rename_notes(
                        self.base,
                        self.side,
                        free_base,
                        self.free_side(q as int),
                        free_base.len() as int,
                    )
                },
                None => Seq::empty(),
            })
        }
    }
}

/// The matches of the base with one side, and the guesses among them.
pub struct SideMatch {
    pub map: Vec<Option<usize>>,
    pub positional: Vec<PositionalMatch>,
    pub renames: Vec<RenameMatch>,
}

fn place_in(list: &Vec<usize>, c: usize) -> (res: Option<usize>)
    requires
        lists::increasing(list@),
    ensures
        match res {
            Some(k) => list@.contains(c) && k == list@.index_of(c) && k < list.len(),
            None => !list@.contains(c),
        },
{
    let mut i: usize = 0;
    while i < list.len()
        invariant
            i <= list.len(),
            lists::increasing(list@),
            forall|k: int| 0 <= k < i ==> list@[k] != c,
        decreases list.len() - i,
    {
        if list[i] == c {
            proof {
                lists::lemma_index_of(list@, i as int);
            }
            return Some(i);
        }
        i += 1;
    }
    None
}

/// Pairs each member of `free` by its place among the siblings of the same class
/// and name.
fn positions(
    dom: &SemanticDom,
    other: &SemanticDom,
    free: &Vec<usize>,
    free_other: &Vec<usize>,
) -> (res: Vec<Option<usize>>)
    requires
        lists::increasing(free@),
        lists::increasing(free_other@),
        forall|i: int| 0 <= i < free@.len() ==> (#[trigger] free@[i]) < dom@.len(),
        forall|i: int| 0 <= i < free_other@.len() ==> (#[trigger] free_other@[i]) < other@.len(),
    ensures
        res.len() == free.len(),
        forall|i: int|
            0 <= i < res@.len() ==> #[trigger] res@[i] == by_position(
                dom@,
                other@,
                free@,
                free_other@,
                free@[i],
            ),
{
    let mut res: Vec<Option<usize>> = Vec::new();
    let mut i: usize = 0;
    while i < free.len()
        invariant
            i <= free.len(),
            lists::increasing(free@),
            lists::increasing(free_other@),
            forall|i: int| 0 <= i < free@.len() ==> (#[trigger] free@[i]) < dom@.len(),
            forall|i: int|
                0 <= i < free_other@.len() ==> (#[trigger] free_other@[i]) < other@.len(),
            res.len() == i,
            forall|k: int|
                0 <= k < i ==> #[trigger] res@[k] == by_position(
                    dom@,
                    other@,
                    free@,
                    free_other@,
                    free@[k],
                ),
        decreases free.len() - i,
    {
        let c: usize = free[i];
        let node = dom.node(c);
        assert(dom@[c as int] == node@);
        let own_group = members_of_group(dom, free, node.class.as_str(), node.name.as_str());
        let other_group = members_of_group(
            other,
            free_other,
            node.class.as_str(),
            node.name.as_str(),
        );
        proof {
            lists::lemma_filter_increasing(
                free@,
                of_class_and_name(dom@, node.class@, node.name@),
            );
        }
        let entry: Option<usize> = match place_in(&own_group, c) {
            Some(k) => if k < other_group.len() {
                Some(other_group[k])
            } else {
                None
            },
            None => None,
        };
        res.push(entry);
        i += 1;
    }
    res
}

/// The members of `free` that their place did not pair.
fn unplaced(
    free: &Vec<usize>,
    places: &Vec<Option<usize>>,
    Ghost(pred): Ghost<spec_fn(usize) -> bool>,
) -> (res: Vec<usize>)
    requires
        places.len() == free.len(),
        forall|i: int| 0 <= i < free@.len() ==> ((#[trigger] places@[i]) is None <==> pred(free@[i])),
    ensures
        res@ == free@.filter(pred),
{
    let mut out: Vec<usize> = Vec::new();
    let mut i: usize = 0;
    proof {
        lists::lemma_filter_none(free@, pred);
    }
    while i < free.len()
        invariant
            i <= free.len(),
            places.len() == free.len(),
            forall|i: int|
                0 <= i < free@.len() ==> ((#[trigger] places@[i]) is None <==> pred(free@[i])),
            out@ == free@.take(i as int).filter(pred),
        decreases free.len() - i,
    {
        proof {
            lists::lemma_filter_step(free@, pred, i as int);
        }
        if places[i].is_none() {
            out.push(free[i]);
        }
        i += 1;
    }
    proof {
        lists::lemma_filter_all(free@, pred);
    }
    out
}

/// The note on the group of a member of `free_base`.
fn note_position(
    base: &SemanticDom,
    side: &SemanticDom,
    free_base: &Vec<usize>,
    free_side: &Vec<usize>,
    p: usize,
    c: usize,
    out: &mut Vec<PositionalMatch>,
)
    requires
        c < base@.len(),
        forall|i: int| 0 <= i < free_base@.len() ==> (#[trigger] free_base@[i]) < base@.len(),
        forall|i: int| 0 <= i < free_side@.len() ==> (#[trigger] free_side@[i]) < side@.len(),
    ensures
        positional_view(final(out)@) == positional_view(old(out)@) + positional_note(
            base@,
            side@,
            free_base@,
            free_side@,
            p,
            c,
        ),
{
    let node = base.node(c);
    assert(base@[c as int] == node@);
    let own = members_of_group(base, free_base, node.class.as_str(), node.name.as_str());
    let other = members_of_group(side, free_side, node.class.as_str(), node.name.as_str());
    let ghost before = positional_view(out@);
    if own.len() > 0 && own[0] == c && other.len() > 0 && (own.len() > 1 || other.len() > 1) {
        let count: usize = if own.len() <= other.len() {
            own.len()
        } else {
            other.len()
        };
        out.push(
            PositionalMatch {
                base_parent: p,
                class: node.class.clone(),
                name: node.name.clone(),
                count,
            },
        );
        proof {
            let note = positional_note(base@, side@, free_base@, free_side@, p, c);
            assert(positional_view(out@) =~= before + note);
        }
    } else {
        assert(before + Seq::<PositionalModel>::empty() =~= before);
    }
}

/// Pairs the unmatched children of `p`, which is matched with `q`.
fn match_children(
    base: &SemanticDom,
    side: &SemanticDom,
    free_base: &Vec<usize>,
    free_side: &Vec<usize>,
    p: usize,
    positional: &mut Vec<PositionalMatch>,
    renames: &mut Vec<RenameMatch>,
) -> (res: Vec<Option<usize>>)
    requires
        lists::increasing(free_base@),
        lists::increasing(free_side@),
        forall|i: int| 0 <= i < free_base@.len() ==> (#[trigger] free_base@[i]) < base@.len(),
        forall|i: int| 0 <= i < free_side@.len() ==> (#[trigger] free_side@[i]) < side@.len(),
    ensures
        res.len() == free_base.len(),
        forall|i: int|
            0 <= i < res@.len() ==> #[trigger] res@[i] == (match by_position(
                base@,
                side@,
                free_base@,
                free_side@,
                free_base@[i],
            ) {
                Some(j) => Some(j),
                None => by_rename(base@, side@, free_base@, free_side@, free_base@[i]),
            }),
        positional_view(final(positional)@) == positional_view(old(positional)@)
            + positional_notes(
            base@,
            side@,
            free_base@,
            free_side@,
            p,
            free_base@.len() as int,
        ),
        renames_view(final(renames)@) == renames_view(old(renames)@) + rename_notes(
            base@,
            side@,
            free_base@,
            free_side@,
            free_base@.len() as int,
        ),
{
    let ghost before = positional_view(positional@);
    let ghost renamed = renames_view(renames@);
    let places = positions(base, side, free_base, free_side);
    let places_side = positions(side, base, free_side, free_base);
    let ghost over_base = left_over(base@, side@, free_base@, free_side@);
    let ghost over_side = left_over(side@, base@, free_side@, free_base@);
    let rest_base = unplaced(free_base, &places, Ghost(over_base));
    let rest_side = unplaced(free_side, &places_side, Ghost(over_side));
    proof {
        assert forall|i: int| 0 <= i < rest_base@.len() implies (#[trigger] rest_base@[i])
            < base@.len() by {
            assert(rest_base@.contains(rest_base@[i]));
            lists::lemma_filter_mem(free_base@, over_base, rest_base@[i]);
            let k = free_base@.index_of(rest_base@[i]);
            assert(free_base@[k] == rest_base@[i]);
        }
        assert forall|i: int| 0 <= i < rest_side@.len() implies (#[trigger] rest_side@[i])
            < side@.len() by {
            assert(rest_side@.contains(rest_side@[i]));
            lists::lemma_filter_mem(free_side@, over_side, rest_side@[i]);
            let k = free_side@.index_of(rest_side@[i]);
            assert(free_side@[k] == rest_side@[i]);
        }
        assert(before + Seq::<PositionalModel>::empty() =~= before);
        assert(renamed + Seq::<RenameModel>::empty() =~= renamed);
    }
    let mut res: Vec<Option<usize>> = Vec::new();
    let mut i: usize = 0;
    while i < free_base.len()
        invariant
            i <= free_base.len(),
            places.len() == free_base.len(),
            forall|i: int| 0 <= i < free_base@.len() ==> (#[trigger] free_base@[i]) < base@.len(),
            forall|i: int| 0 <= i < free_side@.len() ==> (#[trigger] free_side@[i]) < side@.len(),
            forall|i: int|
                0 <= i < places@.len() ==> #[trigger] places@[i] == by_position(
                    base@,
                    side@,
                    free_base@,
                    free_side@,
                    free_base@[i],
                ),
            rest_base@ == free_base@.filter(left_over(base@, side@, free_base@, free_side@)),
            rest_side@ == free_side@.filter(left_over(side@, base@, free_side@, free_base@)),
            forall|i: int| 0 <= i < rest_base@.len() ==> (#[trigger] rest_base@[i]) < base@.len(),
            forall|i: int| 0 <= i < rest_side@.len() ==> (#[trigger] rest_side@[i]) < side@.len(),
            res.len() == i,
            forall|k: int|
                0 <= k < i ==> #[trigger] res@[k] == (match by_position(
                    base@,
                    side@,
                    free_base@,
                    free_side@,
                    free_base@[k],
                ) {
                    Some(j) => Some(j),
                    None => by_rename(base@, side@, free_base@, free_side@, free_base@[k]),
                }),
            positional_view(positional@) == before + positional_notes(
                base@,
                side@,
                free_base@,
                free_side@,
                p,
                i as int,
            ),
            renames_view(renames@) == renamed + rename_notes(
                base@,
                side@,
                free_base@,
                free_side@,
                i as int,
            ),
        decreases free_base.len() - i,
    {
        let c: usize = free_base[i];
        let ghost notes = positional_notes(
            base@,
            side@,
            free_base@,
            free_side@,
            p,
            i as int,
        );
        let ghost note = positional_note(base@, side@, free_base@, free_side@, p, c);
        note_position(base, side, free_base, free_side, p, c, positional);
        assert((before + notes) + note =~= before + (notes + note));
        let ghost old_renames = renames_view(renames@);
        let ghost names = rename_notes(base@, side@, free_base@, free_side@, i as int);
        let ghost name_note = rename_note(base@, side@, free_base@, free_side@, c);
        let mut entry: Option<usize> = places[i];
        if entry.is_none() {
            let class = base.node(c).class.as_str();
            assert(base@[c as int].class == class@);
            let own = members_of_class(base, &rest_base, class);
            let other = members_of_class(side, &rest_side, class);
            if own.len() == 1 && own[0] == c && other.len() == 1 {
                assert(own@ =~= seq![c]);
                let j: usize = other[0];
                proof {
                    assert(other@.contains(j));
                    lists::lemma_filter_mem(rest_side@, of_class(side@, class@), j);
                    let k = rest_side@.index_of(j);
                    assert(rest_side@[k] == j);
                }
                if is_similar(base.node(c), side.node(j)) {
                    entry = Some(j);
                    renames.push(
                        RenameMatch {
                            base_id: c,
                            class: base.node(c).class.clone(),
                            from: base.node(c).name.clone(),
                            to: side.node(j).name.clone(),
                        },
                    );
                    assert(renames_view(renames@) =~= old_renames + name_note);
                } else {
                    assert(old_renames + name_note =~= old_renames);
                }
            } else {
                proof {
                    if own@ == seq![c] {
                        assert(own@[0] == c);
                    }
                    assert(old_renames + name_note =~= old_renames);
                }
            }
        } else {
            assert(old_renames + name_note =~= old_renames);
        }
        assert((renamed + names) + name_note =~= renamed + (names + name_note));
        res.push(entry);
        i += 1;
    }
    res
}

/// Children lists are ascending and hold ids of instances.
pub proof fn lemma_children(d: DomModel, p: int)
    requires
        semantic::dom_wf(d),
        0 <= p < d.len(),
    ensures
        lists::increasing(d[p].children),
        forall|i: int|
            0 <= i < d[p].children.len() ==> p < (#[trigger] d[p].children[i]) < d.len()
                && d[d[p].children[i] as int].parent == Some(p as usize),
{
    reveal(semantic::links_wf);
    assert forall|i: int, j: int| 0 <= i < j < d[p].children.len() implies (
    #[trigger] d[p].children[i]) < (#[trigger] d[p].children[j]) by {}
}

/// An instance is a child of its parent.
pub proof fn lemma_is_child(d: DomModel, i: int)
    requires
        semantic::dom_wf(d),
        0 < i < d.len(),
    ensures
        d[i].parent is Some,
        d[i].parent->0 < i,
        d[d[i].parent->0 as int].children.contains(i as usize),
{
    reveal(semantic::links_wf);
    assert(d[i].parent is Some);
}

pub proof fn lemma_free(m: Matching, p: int, q: int)
    requires
        m.wf(),
        0 <= p < m.base.len(),
        0 <= q < m.side.len(),
    ensures
        lists::increasing(m.free_base(p)),
        lists::increasing(m.free_side(q)),
        forall|i: int|
            0 <= i < m.free_base(p).len() ==> p < (#[trigger] m.free_base(p)[i]) < m.base.len()
                && m.base[m.free_base(p)[i] as int].parent == Some(p as usize) && m.first(
                m.free_base(p)[i] as int,
            ) is None,
        forall|i: int|
            0 <= i < m.free_side(q).len() ==> q < (#[trigger] m.free_side(q)[i]) < m.side.len()
                && m.side[m.free_side(q)[i] as int].parent == Some(q as usize) && !m.taken_first(
                m.free_side(q)[i] as int,
            ),
{
    lemma_children(m.base, p);
    lemma_children(m.side, q);
    lists::lemma_filter_increasing(m.base[p].children, m.is_free_base());
    lists::lemma_filter_increasing(m.side[q].children, m.is_free_side());
    let fb = m.free_base(p);
    let fs = m.free_side(q);
    assert forall|i: int| 0 <= i < fb.len() implies p < (#[trigger] fb[i]) < m.base.len()
        && m.base[fb[i] as int].parent == Some(p as usize) && m.first(fb[i] as int) is None by {
        assert(fb.contains(fb[i]));
        lists::lemma_filter_mem(m.base[p].children, m.is_free_base(), fb[i]);
        let k = m.base[p].children.index_of(fb[i]);
        assert(m.base[p].children[k] == fb[i]);
    }
    assert forall|i: int| 0 <= i < fs.len() implies q < (#[trigger] fs[i]) < m.side.len()
        && m.side[fs[i] as int].parent == Some(q as usize) && !m.taken_first(fs[i] as int) by {
        assert(fs.contains(fs[i]));
        lists::lemma_filter_mem(m.side[q].children, m.is_free_side(), fs[i]);
        let k = m.side[q].children.index_of(fs[i]);
        assert(m.side[q].children[k] == fs[i]);
    }
}

/// A pair made by position is a member of both free lists with the same class
/// and name, at the same place.
proof fn lemma_by_position(
    b: DomModel,
    s: DomModel,
    fb: Seq<usize>,
    fs: Seq<usize>,
    c: usize,
)
    requires
        lists::increasing(fb),
        lists::increasing(fs),
        by_position(b, s, fb, fs, c) is Some,
    ensures
        ({
            let j = by_position(b, s, fb, fs, c)->0;
            &&& fb.contains(c)
            &&& fs.contains(j)
            &&& s[j as int].class == b[c as int].class
            &&& s[j as int].name == b[c as int].name
            &&& by_position(s, b, fs, fb, j) == Some(c)
        }),
{
    let class = b[c as int].class;
    let name = b[c as int].name;
    let own = group_of(b, fb, class, name);
    let other = group_of(s, fs, class, name);
    let k = own.index_of(c);
    let j = other[k];
    lists::lemma_filter_increasing(fb, of_class_and_name(b, class, name));
    lists::lemma_filter_increasing(fs, of_class_and_name(s, class, name));
    lists::lemma_filter_mem(fb, of_class_and_name(b, class, name), c);
    assert(other.contains(j));
    lists::lemma_filter_mem(fs, of_class_and_name(s, class, name), j);
    lists::lemma_index_of(other, k);
    assert(own[k] == c);
}

/// A pair made by a new name is a member of both free lists that no place
/// paired.
proof fn lemma_by_rename(
    b: DomModel,
    s: DomModel,
    fb: Seq<usize>,
    fs: Seq<usize>,
    c: usize,
)
    requires
        by_rename(b, s, fb, fs, c) is Some,
    ensures
        ({
            let j = by_rename(b, s, fb, fs, c)->0;
            &&& fb.contains(c)
            &&& fs.contains(j)
            &&& by_position(b, s, fb, fs, c) is None
            &&& by_position(s, b, fs, fb, j) is None
            &&& s[j as int].class == b[c as int].class
        }),
{
    let class = b[c as int].class;
    let rest = fb.filter(left_over(b, s, fb, fs));
    let rest_side = fs.filter(left_over(s, b, fs, fb));
    let own = rest.filter(of_class(b, class));
    let other = rest_side.filter(of_class(s, class));
    let j = other[0];
    assert(own.contains(c)) by {
        assert(own[0] == c);
    }
    lists::lemma_filter_mem(rest, of_class(b, class), c);
    lists::lemma_filter_mem(fb, left_over(b, s, fb, fs), c);
    assert(other.contains(j));
    lists::lemma_filter_mem(rest_side, of_class(s, class), j);
    lists::lemma_filter_mem(fs, left_over(s, b, fs, fb), j);
}

/// Two renamed instances of one class cannot both be the only one.
proof fn lemma_by_rename_unique(
    b: DomModel,
    s: DomModel,
    fb: Seq<usize>,
    fs: Seq<usize>,
    c: usize,
    e: usize,
)
    requires
        by_rename(b, s, fb, fs, c) is Some,
        by_rename(b, s, fb, fs, e) == by_rename(b, s, fb, fs, c),
    ensures
        c == e,
{
    lemma_by_rename(b, s, fb, fs, c);
    lemma_by_rename(b, s, fb, fs, e);
    let j = by_rename(b, s, fb, fs, c)->0;
    let class = b[c as int].class;
    assert(b[e as int].class == class);
    let own = fb.filter(left_over(b, s, fb, fs)).filter(of_class(b, class));
    assert(own == seq![c] && own == seq![e]);
    assert(own[0] == c && own[0] == e);
}

/// A match that depends on the match of the parent is a child of it that no
/// earlier match took.
pub proof fn lemma_under(m: Matching, p: int, q: int, c: usize)
    requires
        m.wf(),
        0 <= p < m.base.len(),
        0 <= q < m.side.len(),
        m.under(p, q, c) is Some,
    ensures
        ({
            let j = m.under(p, q, c)->0;
            &&& q < j < m.side.len()
            &&& m.side[j as int].parent == Some(q as usize)
            &&& !m.taken_first(j as int)
            &&& m.side[j as int].class == m.base[c as int].class
        }),
{
    let fb = m.free_base(p);
    let fs = m.free_side(q);
    lemma_free(m, p, q);
    if by_position(m.base, m.side, fb, fs, c) is Some {
        lemma_by_position(m.base, m.side, fb, fs, c);
    } else {
        lemma_by_rename(m.base, m.side, fb, fs, c);
    }
    let j = m.under(p, q, c)->0;
    let k = fs.index_of(j);
    assert(fs[k] == j);
}

/// A match is an instance of the side; only the roots match each other.
pub proof fn lemma_partner(m: Matching, i: int)
    requires
        m.wf(),
        0 <= i < m.base.len(),
        m.partner(i) is Some,
    ensures
        m.partner(i)->0 < m.side.len(),
        i == 0 <==> m.partner(i)->0 == 0,
    decreases i,
{
    if m.first(i) is Some {
        lemma_first_some(m, i);
    } else {
        let p = m.base[i].parent->0 as int;
        lemma_partner(m, p);
        let q = m.partner(p)->0 as int;
        lemma_under(m, p, q, i as usize);
    }
}

proof fn lemma_first_injective(m: Matching, i: int, k: int)
    requires
        m.wf(),
        0 <= i < m.base.len(),
        0 <= k < m.base.len(),
        m.first(i) is Some,
        m.first(i) == m.first(k),
    ensures
        i == k,
{
    lemma_first_some(m, i);
    lemma_first_some(m, k);
    if i > 0 && k > 0 {
        let j = m.first(i)->0;
        if m.by_id(i) is Some && m.by_id(k) is Some {
            lemma_id_match_injective(m.base, all_of(m.base), i, k, m.side, all_of(m.side));
        } else if m.by_id(i) is Some {
            assert(m.by_id(i) == Some(j as int as usize));
            assert(m.taken_by_id(j as int));
        } else if m.by_id(k) is Some {
            assert(m.by_id(k) == Some(j as int as usize));
            assert(m.taken_by_id(j as int));
        } else {
            let ci = m.base[i].class;
            let ck = m.base[k].class;
            let oi = Matching::top_level(m.side, ci);
            let ok = Matching::top_level(m.side, ck);
            assert(oi.contains(j)) by {
                assert(oi[0] == j);
            }
            assert(ok.contains(j)) by {
                assert(ok[0] == j);
            }
            lists::lemma_filter_mem(m.side[0].children, of_class(m.side, ci), j);
            lists::lemma_filter_mem(m.side[0].children, of_class(m.side, ck), j);
            assert(ci == ck);
            let own = Matching::top_level(m.base, ci);
            assert(own[0] == i as usize && own[0] == k as usize);
        }
    }
}

/// No instance of the side is the match of two instances of the base.
pub proof fn lemma_partner_injective(m: Matching, i: int, k: int)
    requires
        m.wf(),
        0 <= i < m.base.len(),
        0 <= k < m.base.len(),
        m.partner(i) is Some,
        m.partner(i) == m.partner(k),
    ensures
        i == k,
    decreases i + k,
{
    let j = m.partner(i)->0;
    if m.first(i) is Some && m.first(k) is Some {
        lemma_first_injective(m, i, k);
    } else if m.first(i) is Some {
        let p = m.base[k].parent->0 as int;
        lemma_partner(m, p);
        lemma_under(m, p, m.partner(p)->0 as int, k as usize);
        assert(m.first(i) == Some(j as int as usize));
        assert(m.taken_first(j as int));
    } else if m.first(k) is Some {
        let p = m.base[i].parent->0 as int;
        lemma_partner(m, p);
        lemma_under(m, p, m.partner(p)->0 as int, i as usize);
        assert(m.first(k) == Some(j as int as usize));
        assert(m.taken_first(j as int));
    } else {
        let p = m.base[i].parent->0 as int;
        let r = m.base[k].parent->0 as int;
        lemma_partner(m, p);
        lemma_partner(m, r);
        let q = m.partner(p)->0 as int;
        let t = m.partner(r)->0 as int;
        lemma_under(m, p, q, i as usize);
        lemma_under(m, r, t, k as usize);
        assert(q == t);
        lemma_partner_injective(m, p, r);
        let fb = m.free_base(p);
        let fs = m.free_side(q);
        lemma_free(m, p, q);
        let bi = by_position(m.base, m.side, fb, fs, i as usize);
        let bk = by_position(m.base, m.side, fb, fs, k as usize);
        if bi is Some {
            lemma_by_position(m.base, m.side, fb, fs, i as usize);
        }
        if bk is Some {
            lemma_by_position(m.base, m.side, fb, fs, k as usize);
        }
        if bi is None {
            lemma_by_rename(m.base, m.side, fb, fs, i as usize);
        }
        if bk is None {
            lemma_by_rename(m.base, m.side, fb, fs, k as usize);
        }
        if bi is None && bk is None {
            lemma_by_rename_unique(m.base, m.side, fb, fs, i as usize, k as usize);
        }
    }
}

/// The unmatched members of a list of children.
fn free_children(children: &Vec<usize>, matched: &Vec<bool>, Ghost(pred): Ghost<
    spec_fn(usize) -> bool,
>) -> (res: Vec<usize>)
    requires
        forall|i: int|
            0 <= i < children@.len() ==> (#[trigger] children@[i]) < matched@.len() && (pred(
                children@[i],
            ) <==> !matched@[children@[i] as int]),
    ensures
        res@ == children@.filter(pred),
{
    let mut out: Vec<usize> = Vec::new();
    let mut i: usize = 0;
    proof {
        lists::lemma_filter_none(children@, pred);
    }
    while i < children.len()
        invariant
            i <= children.len(),
            forall|i: int|
                0 <= i < children@.len() ==> (#[trigger] children@[i]) < matched@.len() && (pred(
                    children@[i],
                ) <==> !matched@[children@[i] as int]),
            out@ == children@.take(i as int).filter(pred),
        decreases children.len() - i,
    {
        proof {
            lists::lemma_filter_step(children@, pred, i as int);
        }
        let c: usize = children[i];
        assert(c < matched@.len());
        if !matched[c] {
            out.push(c);
        }
        i += 1;
    }
    proof {
        lists::lemma_filter_all(children@, pred);
    }
    out
}

/// Pairs the unmatched children of `p`, which is matched with `q`, and notes the
/// pairs down.
fn match_under(
    base: &SemanticDom,
    side: &SemanticDom,
    matched: &Vec<bool>,
    taken: &Vec<bool>,
    p: usize,
    q: usize,
    map: &mut Vec<Option<usize>>,
    positional: &mut Vec<PositionalMatch>,
    renames: &mut Vec<RenameMatch>,
    Ghost(m): Ghost<Matching>,
)
    requires
        base.wf(),
        side.wf(),
        m.base == base@,
        m.side == side@,
        p < base@.len(),
        q < side@.len(),
        matched.len() == base@.len(),
        taken.len() == side@.len(),
        old(map).len() == base@.len(),
        forall|k: int| 0 <= k < base@.len() ==> (#[trigger] matched@[k] <==> m.first(k) is Some),
        forall|j: int| 0 <= j < side@.len() ==> (#[trigger] taken@[j] <==> m.taken_first(j)),
    ensures
        final(map).len() == base@.len(),
        forall|k: int|
            0 <= k < base@.len() ==> #[trigger] final(map)@[k] == (if base@[k].parent == Some(p)
                && m.first(k) is None {
                m.under(p as int, q as int, k as usize)
            } else {
                old(map)@[k]
            }),
        positional_view(final(positional)@) == positional_view(old(positional)@)
            + positional_notes(
            base@,
            side@,
            m.free_base(p as int),
            m.free_side(q as int),
            p,
            m.free_base(p as int).len() as int,
        ),
        renames_view(final(renames)@) == renames_view(old(renames)@) + rename_notes(
            base@,
            side@,
            m.free_base(p as int),
            m.free_side(q as int),
            m.free_base(p as int).len() as int,
        ),
{
    let ghost before = map@;
    proof {
        lemma_children(base@, p as int);
        lemma_children(side@, q as int);
        lemma_free(m, p as int, q as int);
        assert forall|k: int| 0 <= k < base@[p as int].children.len() implies (
        #[trigger] base@[p as int].children[k]) < matched@.len() && ((m.is_free_base())(
            base@[p as int].children[k],
        ) <==> !matched@[base@[p as int].children[k] as int]) by {
            let c = base@[p as int].children[k];
            assert(matched@[c as int] <==> m.first(c as int) is Some);
        }
        assert forall|k: int| 0 <= k < side@[q as int].children.len() implies (
        #[trigger] side@[q as int].children[k]) < taken@.len() && ((m.is_free_side())(
            side@[q as int].children[k],
        ) <==> !taken@[side@[q as int].children[k] as int]) by {
            let c = side@[q as int].children[k];
            assert(taken@[c as int] <==> m.taken_first(c as int));
        }
    }
    let free_base = free_children(&base.node(p).children, matched, Ghost(m.is_free_base()));
    let free_side = free_children(&side.node(q).children, taken, Ghost(m.is_free_side()));
    assert(free_base@ == m.free_base(p as int));
    assert(free_side@ == m.free_side(q as int));
    let pairs = match_children(base, side, &free_base, &free_side, p, positional, renames);
    let mut x: usize = 0;
    while x < free_base.len()
        invariant
            x <= free_base.len(),
            pairs.len() == free_base.len(),
            map.len() == base@.len(),
            before.len() == base@.len(),
            lists::increasing(free_base@),
            forall|k: int| 0 <= k < free_base@.len() ==> (#[trigger] free_base@[k]) < base@.len(),
            forall|k: int| 0 <= k < x ==> map@[#[trigger] free_base@[k] as int] == pairs@[k],
            forall|k: int|
                0 <= k < base@.len() && !free_base@.contains(k as usize) ==> #[trigger] map@[k]
                    == before[k],
        decreases free_base.len() - x,
    {
        let c: usize = free_base[x];
        let entry: Option<usize> = pairs[x];
        map.set(c, entry);
        proof {
            assert(free_base@.contains(c));
            assert forall|k: int| 0 <= k < x + 1 implies map@[#[trigger] free_base@[k] as int]
                == pairs@[k] by {
                if k < x {
                    assert(free_base@[k] < free_base@[x as int]);
                }
            }
        }
        x += 1;
    }
    proof {
        assert forall|k: int| 0 <= k < base@.len() implies #[trigger] map@[k] == (if base@[k].parent
            == Some(p) && m.first(k) is None {
            m.under(p as int, q as int, k as usize)
        } else {
            before[k]
        }) by {
            lists::lemma_filter_mem(base@[p as int].children, m.is_free_base(), k as usize);
            if free_base@.contains(k as usize) {
                let x = free_base@.index_of(k as usize);
                assert(free_base@[x] == k as usize);
                assert(map@[k] == pairs@[x]);
            } else {
                if k > 0 && base@[k].parent == Some(p) {
                    lemma_is_child(base@, k);
                }
                assert(map@[k] == before[k]);
            }
        }
    }
}

/// The first matches, with what they leave unmatched.
struct Start {
    map: Vec<Option<usize>>,
    matched: Vec<bool>,
    taken: Vec<bool>,
}

fn start_matching(base: &SemanticDom, side: &SemanticDom, db: &ReflectionDatabase<'static>) -> (res:
    Start)
    requires
        base.wf(),
        side.wf(),
    ensures
        ({
            let m = Matching { base: base@, side: side@, classes: dom::classes(*db) };
            &&& res.map.len() == base@.len()
            &&& res.matched.len() == base@.len()
            &&& res.taken.len() == side@.len()
            &&& forall|k: int| 0 <= k < base@.len() ==> #[trigger] res.map@[k] == m.first(k)
            &&& forall|k: int|
                0 <= k < base@.len() ==> (#[trigger] res.matched@[k] <==> m.first(k) is Some)
            &&& forall|j: int|
                0 <= j < side@.len() ==> (#[trigger] res.taken@[j] <==> m.taken_first(j))
        }),
{
    let ghost m = Matching { base: base@, side: side@, classes: dom::classes(*db) };
    let first = match_first(base, side, db);
    proof {
        assert forall|i: int| 0 <= i < first@.len() && (#[trigger] first@[i]) is Some implies first@[i]->0
            < side@.len() by {
            lemma_first_some(m, i);
        }
    }
    let taken = mark_targets(&first, side.count());
    let mut matched: Vec<bool> = Vec::new();
    let mut i: usize = 0;
    while i < first.len()
        invariant
            i <= first.len(),
            matched.len() == i,
            forall|k: int| 0 <= k < i ==> (#[trigger] matched@[k] <==> first@[k] is Some),
        decreases first.len() - i,
    {
        matched.push(first[i].is_some());
        i += 1;
    }
    proof {
        assert forall|j: int| 0 <= j < side@.len() implies (#[trigger] taken@[j] <==> m.taken_first(j)) by {
            if taken@[j] {
                let x = choose|x: int| 0 <= x < first@.len() && #[trigger] first@[x] == Some(j as usize);
                assert(m.first(x) == Some(j as usize));
            } else if m.taken_first(j) {
                let x = choose|x: int|
                    0 <= x < m.base.len() && #[trigger] m.first(x) == Some(j as usize);
                assert(first@[x] == Some(j as usize));
            }
        }
        assert forall|k: int| 0 <= k < base@.len() implies (#[trigger] matched@[k] <==> m.first(k) is Some) by {
            assert(first@[k] == m.first(k));
        }
    }
    Start { map: first, matched, taken }
}

/// Instance `k` was matched, or its parent is one of the first `p` instances.
spec fn settled(m: Matching, p: int, k: int) -> bool {
    k == 0 || m.first(k) is Some || (m.base[k].parent is Some && m.base[k].parent->0 < p)
}

/// Matches the instances of the base with those of a side.
#[verifier::rlimit(80)]
#[verifier::spinoff_prover]
pub fn match_base_to_side(
    base: &SemanticDom,
    side: &SemanticDom,
    db: &ReflectionDatabase<'static>,
) -> (res: SideMatch)
    requires
        base.wf(),
        side.wf(),
    ensures
        ({
            let m = Matching { base: base@, side: side@, classes: dom::classes(*db) };
            &&& res.map.len() == base@.len()
            &&& forall|i: int| 0 <= i < base@.len() ==> #[trigger] res.map@[i] == m.partner(i)
            &&& positional_view(res.positional@) == m.positional(base@.len() as int)
            &&& renames_view(res.renames@) == m.renames(base@.len() as int)
        }),
{
    let ghost m = Matching { base: base@, side: side@, classes: dom::classes(*db) };
    let start = start_matching(base, side, db);
    let mut map = start.map;
    let matched = start.matched;
    let taken = start.taken;
    let mut positional: Vec<PositionalMatch> = Vec::new();
    let mut renames: Vec<RenameMatch> = Vec::new();
    proof {
        assert(positional_view(positional@) =~= m.positional(0));
        assert(renames_view(renames@) =~= m.renames(0));
        assert forall|k: int| 0 <= k < base@.len() && settled(m, 0, k) implies #[trigger] map@[k]
            == m.partner(k) by {}
        assert forall|k: int| 0 <= k < base@.len() && !settled(m, 0, k) implies #[trigger] map@[k] is None by {}
    }
    let mut p: usize = 0;
    while p < base.count()
        invariant
            base.wf(),
            side.wf(),
            m == (Matching { base: base@, side: side@, classes: dom::classes(*db) }),
            p <= base@.len(),
            map.len() == base@.len(),
            matched.len() == base@.len(),
            taken.len() == side@.len(),
            forall|k: int| 0 <= k < base@.len() ==> (#[trigger] matched@[k] <==> m.first(k) is Some),
            forall|j: int| 0 <= j < side@.len() ==> (#[trigger] taken@[j] <==> m.taken_first(j)),
            forall|k: int|
                0 <= k < base@.len() && settled(m, p as int, k) ==> #[trigger] map@[k] == m.partner(
                    k,
                ),
            forall|k: int|
                0 <= k < base@.len() && !settled(m, p as int, k) ==> #[trigger] map@[k] is None,
            positional_view(positional@) == m.positional(p as int),
            renames_view(renames@) == m.renames(p as int),
        decreases base@.len() - p,
    {
        proof {
            if p > 0 {
                lemma_is_child(base@, p as int);
            }
            assert(settled(m, p as int, p as int));
            assert(map@[p as int] == m.partner(p as int));
        }
        let ghost before = map@;
        match map[p] {
            Some(q) => {
                proof {
                    lemma_partner(m, p as int);
                }
                match_under(
                    base,
                    side,
                    &matched,
                    &taken,
                    p,
                    q,
                    &mut map,
                    &mut positional,
                    &mut renames,
                    Ghost(m),
                );
            },
            None => {
                proof {
                    assert(m.positional(p as int) + Seq::<PositionalModel>::empty()
                        =~= m.positional(p as int));
                    assert(m.renames(p as int) + Seq::<RenameModel>::empty()
                        =~= m.renames(p as int));
                }
            },
        }
        proof {
            assert forall|k: int| 0 <= k < base@.len() && settled(m, p + 1, k) implies #[trigger] map@[k]
                == m.partner(k) by {
                if !settled(m, p as int, k) {
                    assert(before[k] is None);
                    assert(base@[k].parent == Some(p));
                    lemma_is_child(base@, k);
                } else {
                    assert(before[k] == m.partner(k));
                    if base@[k].parent == Some(p) && m.first(k) is None {
                        assert(k == 0);
                    }
                }
            }
            assert forall|k: int| 0 <= k < base@.len() && !settled(m, p + 1, k) implies #[trigger] map@[k] is None by {
                assert(before[k] is None);
            }
        }
        p += 1;
    }
    proof {
        assert forall|k: int| 0 <= k < base@.len() implies #[trigger] map@[k] == m.partner(k) by {
            if k > 0 {
                lemma_is_child(base@, k);
            }
            assert(settled(m, p as int, k));
        }
    }
    SideMatch { map, positional, renames }
}

} // verus!
