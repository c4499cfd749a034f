//! Which instances are taken for one: how similar two instances are, what becomes of a new
//! name, and what a match says of its two instances.

use vstd::prelude::*;

use crate::keyed;
use crate::lists;
use crate::matching;
use crate::matching::Matching;
use crate::semantic;
use crate::semantic::{DomModel, InstanceModel};
use crate::text::Text;
use crate::value;
use crate::value::ValueModel;
use crate::variant;

verus! {

// ---------------------------------------------------------------------------
// Similarity
// ---------------------------------------------------------------------------

/// Whether a value compares as equal to itself. A number that is not a number does not.
pub open spec fn is_comparable(v: ValueModel) -> bool
    decreases v,
{
    match v {
        ValueModel::Ref(_) => true,
        ValueModel::Object(_) => true,
        ValueModel::Leaf(x) => variant::variants_equal(x, x),
        ValueModel::Attributes(list) => forall|i: int|
            0 <= i < list.len() ==> is_comparable((#[trigger] list[i]).1),
    }
}

proof fn lemma_comparable(v: ValueModel)
    requires
        is_comparable(v),
    ensures
        value::raw_equal(v, v),
    decreases v,
{
    if let ValueModel::Attributes(list) = v {
        assert forall|i: int| 0 <= i < list.len() implies value::raw_equal(
            (#[trigger] list[i]).1,
            list[i].1,
        ) by {
            assert(is_comparable(list[i].1));
            lemma_comparable(list[i].1);
        }
    }
}

/// Whether two instances hold the same: the same values under the same names, but for the
/// unique id, and as many children. Their names and classes do not count.
pub open spec fn same_content(a: InstanceModel, b: InstanceModel) -> bool {
    &&& a.children.len() == b.children.len()
    &&& forall|key: Text|
        key != "UniqueId"@ ==> (#[trigger] keyed::lookup(a.properties, key)) == keyed::lookup(
            b.properties,
            key,
        ) && (keyed::lookup(a.properties, key) matches Some(v) ==> is_comparable(v))
}

proof fn lemma_count_all(a: InstanceModel, b: InstanceModel, keys: Seq<Text>)
    requires
        forall|i: int| 0 <= i < keys.len() ==> matching::equal_under(a, b, #[trigger] keys[i]),
    ensures
        matching::count_equal(a, b, keys) == keys.len(),
    decreases keys.len(),
{
    if keys.len() > 0 {
        assert(matching::equal_under(a, b, keys[keys.len() - 1]));
        lemma_count_all(a, b, keys.drop_last());
    }
}

proof fn lemma_content_key(a: InstanceModel, b: InstanceModel, key: Text)
    ensures
        matching::content_keys(a, b).contains(key) <==> key != "UniqueId"@ && (keyed::lookup(
            a.properties,
            key,
        ) is Some || keyed::lookup(b.properties, key) is Some),
{
    let x = keyed::keys_of(a.properties);
    let y = keyed::keys_of(b.properties);
    let all = keyed::key_union(x, y);
    keyed::lemma_key_union_contains(x, y, key);
    lists::lemma_filter_mem(all, matching::is_content_key(), key);
    lemma_named(a.properties, key);
    lemma_named(b.properties, key);
}

proof fn lemma_named(list: Seq<(Text, ValueModel)>, key: Text)
    ensures
        keyed::keys_of(list).contains(key) <==> keyed::lookup(list, key) is Some,
{
    if keyed::lookup(list, key) is Some {
        let i = keyed::lemma_lookup_some(list, key);
        assert(keyed::keys_of(list)[i] == key);
    } else {
        keyed::lemma_lookup_absent(list, key);
        if keyed::keys_of(list).contains(key) {
            let i = keyed::keys_of(list).index_of(key);
            assert(list[i].0 == key);
        }
    }
}

/// Two instances that hold the same are similar, however many children they have.
pub proof fn law_same_content_is_similar(a: InstanceModel, b: InstanceModel)
    requires
        same_content(a, b),
    ensures
        matching::similar(a, b),
        matching::similar(b, a),
{
    let keys = matching::content_keys(a, b);
    let back = matching::content_keys(b, a);
    assert forall|i: int| 0 <= i < keys.len() implies matching::equal_under(
        a,
        b,
        #[trigger] keys[i],
    ) by {
        assert(keys.contains(keys[i]));
        lemma_content_key(a, b, keys[i]);
        lemma_comparable(keyed::lookup(a.properties, keys[i])->0);
    }
    assert forall|i: int| 0 <= i < back.len() implies matching::equal_under(
        b,
        a,
        #[trigger] back[i],
    ) by {
        assert(back.contains(back[i]));
        lemma_content_key(b, a, back[i]);
        assert(keyed::lookup(a.properties, back[i]) is Some);
        lemma_comparable(keyed::lookup(a.properties, back[i])->0);
    }
    lemma_count_all(a, b, keys);
    lemma_count_all(b, a, back);
}

/// The names of the properties of two instances, but for the unique id.
pub open spec fn names_of(a: InstanceModel, b: InstanceModel) -> Set<Text> {
    Set::new(
        |key: Text|
            key != "UniqueId"@ && (keyed::lookup(a.properties, key) is Some || keyed::lookup(
                b.properties,
                key,
            ) is Some),
    )
}

/// The names under which both instances have a value, and the same one.
pub open spec fn agreeing(a: InstanceModel, b: InstanceModel) -> Set<Text> {
    names_of(a, b).filter(
        |key: Text|
            keyed::lookup(a.properties, key) is Some && keyed::lookup(b.properties, key) is Some
                && value::raw_equal(
                keyed::lookup(a.properties, key)->0,
                keyed::lookup(b.properties, key)->0,
            ),
    )
}

proof fn lemma_counted(a: InstanceModel, b: InstanceModel, keys: Seq<Text>)
    requires
        keys.no_duplicates(),
    ensures
        keys.to_set().finite(),
        keys.to_set().len() == keys.len(),
        keys.to_set().filter(|key: Text| matching::equal_under(a, b, key)).finite(),
        keys.to_set().filter(|key: Text| matching::equal_under(a, b, key)).len()
            == matching::count_equal(a, b, keys),
    decreases keys.len(),
{
    let pred = |key: Text| matching::equal_under(a, b, key);
    keys.unique_seq_to_set();
    if keys.len() == 0 {
        assert(keys.to_set().filter(pred) =~= Set::<Text>::empty());
    } else {
        let rest = keys.drop_last();
        let last = keys.last();
        assert forall|i: int, j: int| 0 <= i < j < rest.len() implies rest[i] != rest[j] by {
            assert(keys[i] != keys[j]);
        }
        lemma_counted(a, b, rest);
        assert(!rest.contains(last)) by {
            if rest.contains(last) {
                let i = rest.index_of(last);
                assert(keys[i] == keys[keys.len() - 1]);
            }
        }
        assert forall|k: Text| keys.to_set().contains(k) <==> rest.to_set().insert(last).contains(
            k,
        ) by {
            if keys.contains(k) && k != last {
                let i = keys.index_of(k);
                assert(rest[i] == k);
            }
            if rest.contains(k) {
                let i = rest.index_of(k);
                assert(keys[i] == k);
            }
            assert(keys[keys.len() - 1] == last);
        }
        assert(keys.to_set() =~= rest.to_set().insert(last));
        if pred(last) {
            assert(keys.to_set().filter(pred) =~= rest.to_set().filter(pred).insert(last));
        } else {
            assert(keys.to_set().filter(pred) =~= rest.to_set().filter(pred));
        }
    }
}

/// Two instances are similar just where four fifths of what they hold are the same, the
/// number of their children counted as one thing more. It does not matter which of the
/// two is the first, in particular not what they are called.
pub proof fn law_similarity_is_four_fifths(a: InstanceModel, b: InstanceModel)
    requires
        keyed::sorted(a.properties),
        keyed::sorted(b.properties),
    ensures
        names_of(a, b).finite(),
        agreeing(a, b).finite(),
        a.children.len() == b.children.len() ==> (matching::similar(a, b) <==> 5 * (agreeing(
            a,
            b,
        ).len() + 1) >= 4 * (names_of(a, b).len() + 1)),
        a.children.len() != b.children.len() ==> (matching::similar(a, b) <==> 5 * agreeing(
            a,
            b,
        ).len() >= 4 * (names_of(a, b).len() + 1)),
{
    let keys = matching::content_keys(a, b);
    lemma_content_distinct(a, b);
    lemma_counted(a, b, keys);
    assert forall|k: Text| keys.to_set().contains(k) <==> names_of(a, b).contains(k) by {
        lemma_content_key(a, b, k);
    }
    assert(keys.to_set() =~= names_of(a, b));
    assert(keys.to_set().filter(|key: Text| matching::equal_under(a, b, key)) =~= agreeing(a, b));
}

proof fn lemma_filter_distinct(s: Seq<Text>, pred: spec_fn(Text) -> bool)
    requires
        s.no_duplicates(),
    ensures
        s.filter(pred).no_duplicates(),
    decreases s.len(),
{
    reveal(Seq::filter);
    if s.len() > 0 {
        let rest = s.drop_last();
        assert forall|i: int, j: int| 0 <= i < j < rest.len() implies rest[i] != rest[j] by {
            assert(s[i] != s[j]);
        }
        lemma_filter_distinct(rest, pred);
        if rest.filter(pred).contains(s.last()) {
            lists::lemma_filter_mem(rest, pred, s.last());
            let i = rest.index_of(s.last());
            assert(s[i] == s[s.len() - 1]);
        }
    }
}

proof fn lemma_content_distinct(a: InstanceModel, b: InstanceModel)
    requires
        keyed::sorted(a.properties),
        keyed::sorted(b.properties),
    ensures
        matching::content_keys(a, b).no_duplicates(),
{
    let x = keyed::keys_of(a.properties);
    let y = keyed::keys_of(b.properties);
    let all = keyed::key_union(x, y);
    keyed::lemma_key_union_ascending(x, y);
    assert forall|i: int, j: int| 0 <= i < j < all.len() implies all[i] != all[j] by {
        crate::text::lemma_text_lt_irreflexive(all[i]);
    }
    lemma_filter_distinct(all, matching::is_content_key());
}

// ---------------------------------------------------------------------------
// Names
// ---------------------------------------------------------------------------

/// Whether an instance is a child of a class.
pub open spec fn is_child_of_class(d: DomModel, p: int, class: Text, x: usize) -> bool {
    d[p].children.contains(x) && d[x as int].class == class
}

/// Whether an instance is the only child of its parent of its class and its name.
pub open spec fn is_named_alone(d: DomModel, p: int, x: usize) -> bool {
    forall|y: usize| #[trigger]
        is_child_of_class(d, p, d[x as int].class, y) && d[y as int].name == d[x as int].name
            ==> y == x
}

/// Whether an instance of one file has a namesake of its class under a parent in the other
/// file, each of them the only one under its parent.
pub open spec fn has_namesake(d: DomModel, p: int, e: DomModel, q: int, x: usize) -> bool {
    &&& is_named_alone(d, p, x)
    &&& exists|y: usize| #[trigger]
        is_child_of_class(e, q, d[x as int].class, y) && e[y as int].name == d[x as int].name
            && is_named_alone(e, q, y)
}

/// Whether nothing but their names, places and contents tells which the instances of a
/// class under two parents are: the class is no service, and none has a unique id.
pub open spec fn is_anonymous(m: Matching, p: int, q: int, class: Text) -> bool {
    &&& !(m.classes.contains_key(class) && m.classes[class].service)
    &&& forall|x: usize| #[trigger]
        is_child_of_class(m.base, p, class, x) ==> semantic::node_unique_id(m.base[x as int])
            is None
    &&& forall|y: usize| #[trigger]
        is_child_of_class(m.side, q, class, y) ==> semantic::node_unique_id(m.side[y as int])
            is None
}

pub proof fn lemma_not_first(m: Matching, x: int)
    requires
        m.wf(),
        0 < x < m.base.len(),
        semantic::node_unique_id(m.base[x]) is None,
        !(m.classes.contains_key(m.base[x].class) && m.classes[m.base[x].class].service),
    ensures
        m.first(x) is None,
{
}

proof fn lemma_not_taken(m: Matching, y: int)
    requires
        m.wf(),
        0 < y < m.side.len(),
        semantic::node_unique_id(m.side[y]) is None,
        !(m.classes.contains_key(m.side[y].class) && m.classes[m.side[y].class].service),
    ensures
        !m.taken_first(y),
{
    if m.taken_first(y) {
        let i = choose|i: int|
            0 <= i < m.base.len() && #[trigger] m.first(i) == Some(y as usize);
        if m.by_id(i) is Some {
            let id = semantic::node_unique_id(m.base[i])->0;
            let all = matching::all_of(m.side);
            let k = choose|k: int| matching::is_sole(m.side, all, k, id);
            assert(matching::is_sole(m.side, all, k, id));
            assert(matching::holds_id(m.side, all, k, id));
        } else if i != 0 {
            let class = m.base[i].class;
            let other = Matching::top_level(m.side, class);
            assert(other.contains(other[0]));
            lists::lemma_filter_mem(
                m.side[0].children,
                matching::of_class(m.side, class),
                other[0],
            );
        }
    }
}

/// The free children of a class are all its children.
pub proof fn lemma_free_children(m: Matching, p: int, q: int, class: Text)
    requires
        m.wf(),
        0 <= p < m.base.len(),
        0 <= q < m.side.len(),
        is_anonymous(m, p, q, class),
    ensures
        forall|x: usize| #[trigger]
            is_child_of_class(m.base, p, class, x) <==> m.free_base(p).contains(x)
                && m.base[x as int].class == class,
        forall|y: usize| #[trigger]
            is_child_of_class(m.side, q, class, y) <==> m.free_side(q).contains(y)
                && m.side[y as int].class == class,
{
    matching::lemma_children(m.base, p);
    matching::lemma_children(m.side, q);
    assert forall|x: usize| #[trigger] is_child_of_class(m.base, p, class, x) <==> m.free_base(
        p,
    ).contains(x) && m.base[x as int].class == class by {
        lists::lemma_filter_mem(m.base[p].children, m.is_free_base(), x);
        if is_child_of_class(m.base, p, class, x) {
            let k = m.base[p].children.index_of(x);
            assert(m.base[p].children[k] == x);
            lemma_not_first(m, x as int);
        }
    }
    assert forall|y: usize| #[trigger] is_child_of_class(m.side, q, class, y) <==> m.free_side(
        q,
    ).contains(y) && m.side[y as int].class == class by {
        lists::lemma_filter_mem(m.side[q].children, m.is_free_side(), y);
        if is_child_of_class(m.side, q, class, y) {
            let k = m.side[q].children.index_of(y);
            assert(m.side[q].children[k] == y);
            lemma_not_taken(m, y as int);
        }
    }
}

/// A list that holds one id, and that once.
proof fn lemma_only(s: Seq<usize>, x: usize)
    requires
        lists::increasing(s),
        s.contains(x),
        forall|i: int| 0 <= i < s.len() ==> #[trigger] s[i] == x,
    ensures
        s == seq![x],
{
    if s.len() > 1 {
        assert(s[0] < s[1]);
    }
    assert(s =~= seq![x]);
}

/// The group of an instance that is named alone is that instance.
proof fn lemma_group_alone(d: DomModel, p: int, free: Seq<usize>, x: usize)
    requires
        lists::increasing(free),
        free.contains(x),
        forall|y: usize| #[trigger]
            is_child_of_class(d, p, d[x as int].class, y) <==> free.contains(y)
                && d[y as int].class == d[x as int].class,
        is_named_alone(d, p, x),
    ensures
        matching::group_of(d, free, d[x as int].class, d[x as int].name) == seq![x],
{
    let (class, name) = (d[x as int].class, d[x as int].name);
    let group = matching::group_of(d, free, class, name);
    let pred = matching::of_class_and_name(d, class, name);
    lists::lemma_filter_increasing(free, pred);
    lists::lemma_filter_mem(free, pred, x);
    assert forall|i: int| 0 <= i < group.len() implies #[trigger] group[i] == x by {
        assert(group.contains(group[i]));
        lists::lemma_filter_mem(free, pred, group[i]);
        assert(is_child_of_class(d, p, class, group[i]));
    }
    lemma_only(group, x);
}

/// An instance with a namesake is paired with it.
proof fn lemma_namesake(
    b: DomModel,
    p: int,
    s: DomModel,
    q: int,
    fb: Seq<usize>,
    fs: Seq<usize>,
    x: usize,
    y: usize,
)
    requires
        lists::increasing(fb),
        lists::increasing(fs),
        b[x as int].class == s[y as int].class,
        b[x as int].name == s[y as int].name,
        forall|z: usize| #[trigger]
            is_child_of_class(b, p, b[x as int].class, z) <==> fb.contains(z)
                && b[z as int].class == b[x as int].class,
        forall|z: usize| #[trigger]
            is_child_of_class(s, q, s[y as int].class, z) <==> fs.contains(z)
                && s[z as int].class == s[y as int].class,
        is_child_of_class(b, p, b[x as int].class, x),
        is_child_of_class(s, q, s[y as int].class, y),
        is_named_alone(b, p, x),
        is_named_alone(s, q, y),
    ensures
        matching::by_position(b, s, fb, fs, x) == Some(y),
{
    lemma_group_alone(b, p, fb, x);
    lemma_group_alone(s, q, fs, y);
    let own = seq![x];
    assert(own[0] == x);
    assert(own.index_of(x) == 0);
}

/// An instance whose class and name no other child of its parent has is matched with its
/// namesake under the matched parent, whatever else is different about the two.
pub proof fn law_namesakes_match(m: Matching, p: int, q: int, x: usize, y: usize)
    requires
        m.wf(),
        0 <= p < m.base.len(),
        m.partner(p) == Some(q as usize),
        0 <= q < m.side.len(),
        is_anonymous(m, p, q, m.base[x as int].class),
        is_child_of_class(m.base, p, m.base[x as int].class, x),
        is_child_of_class(m.side, q, m.base[x as int].class, y),
        m.base[x as int].name == m.side[y as int].name,
        is_named_alone(m.base, p, x),
        is_named_alone(m.side, q, y),
    ensures
        m.partner(x as int) == Some(y),
{
    matching::lemma_children(m.base, p);
    let k = m.base[p].children.index_of(x);
    assert(m.base[p].children[k] == x);
    lemma_not_first(m, x as int);
    lemma_free_children(m, p, q, m.base[x as int].class);
    matching::lemma_free(m, p, q);
    lemma_namesake(m.base, p, m.side, q, m.free_base(p), m.free_side(q), x, y);
}

/// Whether an instance is a child with a class and a name.
pub open spec fn is_called(d: DomModel, p: int, class: Text, name: Text, x: usize) -> bool {
    is_child_of_class(d, p, class, x) && d[x as int].name == name
}

proof fn lemma_group_holds(d: DomModel, p: int, free: Seq<usize>, class: Text, name: Text)
    requires
        lists::increasing(free),
        forall|z: usize| #[trigger]
            is_child_of_class(d, p, class, z) <==> free.contains(z) && d[z as int].class == class,
    ensures
        lists::increasing(matching::group_of(d, free, class, name)),
        forall|z: usize| #[trigger]
            matching::group_of(d, free, class, name).contains(z) <==> is_called(
                d,
                p,
                class,
                name,
                z,
            ),
{
    let pred = matching::of_class_and_name(d, class, name);
    lists::lemma_filter_increasing(free, pred);
    assert forall|z: usize| #[trigger]
        matching::group_of(d, free, class, name).contains(z) <==> is_called(
            d,
            p,
            class,
            name,
            z,
        ) by {
        lists::lemma_filter_mem(free, pred, z);
        assert(is_child_of_class(d, p, class, z) <==> free.contains(z) && d[z as int].class
            == class);
    }
}

/// Siblings of one class and name are matched in their order: what stands before one of a
/// matched pair is matched with what stands before the other, on either side.
#[verifier::rlimit(50)]
pub proof fn law_namesakes_match_in_order(
    m: Matching,
    p: int,
    q: int,
    x: usize,
    y: usize,
    other: usize,
)
    requires
        m.wf(),
        0 <= p < m.base.len(),
        m.partner(p) == Some(q as usize),
        0 <= q < m.side.len(),
        is_anonymous(m, p, q, m.base[x as int].class),
        is_child_of_class(m.base, p, m.base[x as int].class, x),
        m.partner(x as int) == Some(y),
        m.side[y as int].name == m.base[x as int].name,
        is_child_of_class(m.side, q, m.base[x as int].class, y),
    ensures
        other < x && is_called(m.base, p, m.base[x as int].class, m.base[x as int].name, other)
            ==> m.partner(other as int) is Some && m.partner(other as int)->0 < y
            && m.side[m.partner(other as int)->0 as int].name == m.base[x as int].name,
        other < y && is_called(m.side, q, m.base[x as int].class, m.base[x as int].name, other)
            ==> exists|z: usize|
            z < x && #[trigger] is_called(
                m.base,
                p,
                m.base[x as int].class,
                m.base[x as int].name,
                z,
            ) && m.partner(z as int) == Some(other),
{
    let (class, name) = (m.base[x as int].class, m.base[x as int].name);
    lemma_place(m, p, q, x, y);
    let own = matching::group_of(m.base, m.free_base(p), class, name);
    let theirs = matching::group_of(m.side, m.free_side(q), class, name);
    let i = own.index_of(x);
    if other < x && is_called(m.base, p, class, name, other) {
        assert(own.contains(other));
        let k = own.index_of(other);
        lemma_index_before(own, k, i);
        lemma_paired(m, p, q, other);
        assert(theirs[k] < theirs[i]);
        assert(theirs.contains(theirs[k]));
    }
    if other < y && is_called(m.side, q, class, name, other) {
        assert(theirs.contains(other));
        let k = theirs.index_of(other);
        lemma_index_before(theirs, k, i);
        let z = own[k];
        assert(own[k] < own[i]);
        assert(own.contains(z));
        lists::lemma_index_of(own, k);
        lemma_paired(m, p, q, z);
    }
}

proof fn lemma_index_before(s: Seq<usize>, k: int, i: int)
    requires
        lists::increasing(s),
        0 <= k < s.len(),
        0 <= i < s.len(),
        s[k] < s[i],
    ensures
        k < i,
{
    if i < k {
        assert(s[i] < s[k]);
    }
}

/// Matched namesakes have one place among their namesakes.
#[verifier::rlimit(50)]
proof fn lemma_place(m: Matching, p: int, q: int, x: usize, y: usize)
    requires
        m.wf(),
        0 <= p < m.base.len(),
        m.partner(p) == Some(q as usize),
        0 <= q < m.side.len(),
        is_anonymous(m, p, q, m.base[x as int].class),
        is_child_of_class(m.base, p, m.base[x as int].class, x),
        m.partner(x as int) == Some(y),
        m.side[y as int].name == m.base[x as int].name,
        is_child_of_class(m.side, q, m.base[x as int].class, y),
    ensures
        ({
            let (class, name) = (m.base[x as int].class, m.base[x as int].name);
            let own = matching::group_of(m.base, m.free_base(p), class, name);
            let theirs = matching::group_of(m.side, m.free_side(q), class, name);
            let i = own.index_of(x);
            &&& lists::increasing(own)
            &&& lists::increasing(theirs)
            &&& forall|z: usize| #[trigger]
                own.contains(z) <==> is_called(m.base, p, class, name, z)
            &&& forall|z: usize| #[trigger]
                theirs.contains(z) <==> is_called(m.side, q, class, name, z)
            &&& 0 <= i < own.len()
            &&& i < theirs.len()
            &&& own[i] == x
            &&& theirs[i] == y
        }),
{
    let (class, name) = (m.base[x as int].class, m.base[x as int].name);
    let (fb, fs) = (m.free_base(p), m.free_side(q));
    lemma_free_children(m, p, q, class);
    matching::lemma_free(m, p, q);
    lemma_group_holds(m.base, p, fb, class, name);
    lemma_group_holds(m.side, q, fs, class, name);
    let own = matching::group_of(m.base, fb, class, name);
    let theirs = matching::group_of(m.side, fs, class, name);
    assert(is_called(m.base, p, class, name, x));
    assert(is_called(m.side, q, class, name, y));
    assert(own.contains(x));
    lemma_paired(m, p, q, x);
    if own.index_of(x) >= theirs.len() {
        lemma_not_renamed(m, p, q, x, y);
    }
}

/// How a child that nothing else matches is matched.
proof fn lemma_paired(m: Matching, p: int, q: int, x: usize)
    requires
        m.wf(),
        0 <= p < m.base.len(),
        m.partner(p) == Some(q as usize),
        0 <= q < m.side.len(),
        is_anonymous(m, p, q, m.base[x as int].class),
        is_child_of_class(m.base, p, m.base[x as int].class, x),
    ensures
        m.partner(x as int) == m.under(p, q, x),
{
    matching::lemma_children(m.base, p);
    let k = m.base[p].children.index_of(x);
    assert(m.base[p].children[k] == x);
    lemma_not_first(m, x as int);
}

/// An instance that its place did not pair is not matched with a namesake.
#[verifier::rlimit(50)]
proof fn lemma_not_renamed(m: Matching, p: int, q: int, x: usize, y: usize)
    requires
        m.wf(),
        0 <= p < m.base.len(),
        0 <= q < m.side.len(),
        is_anonymous(m, p, q, m.base[x as int].class),
        is_child_of_class(m.base, p, m.base[x as int].class, x),
        is_called(m.side, q, m.base[x as int].class, m.base[x as int].name, y),
        matching::by_position(m.base, m.side, m.free_base(p), m.free_side(q), x) is None,
    ensures
        matching::by_rename(m.base, m.side, m.free_base(p), m.free_side(q), x) != Some(y),
{
    let (class, name) = (m.base[x as int].class, m.base[x as int].name);
    let (fb, fs) = (m.free_base(p), m.free_side(q));
    lemma_free_children(m, p, q, class);
    matching::lemma_free(m, p, q);
    lemma_group_holds(m.base, p, fb, class, name);
    lemma_group_holds(m.side, q, fs, class, name);
    let own = matching::group_of(m.base, fb, class, name);
    let theirs = matching::group_of(m.side, fs, class, name);
    assert(is_called(m.base, p, class, name, x));
    let i = own.index_of(x);
    assert(i >= theirs.len());
    if matching::by_rename(m.base, m.side, fb, fs, x) == Some(y) {
        let left = matching::left_over(m.side, m.base, fs, fb);
        let rest = fs.filter(left).filter(matching::of_class(m.side, class));
        assert(rest[0] == y);
        assert(rest.contains(y));
        lists::lemma_filter_mem(fs.filter(left), matching::of_class(m.side, class), y);
        lists::lemma_filter_mem(fs, left, y);
        assert(theirs.contains(y));
        assert(theirs.index_of(y) < theirs.len() <= i < own.len());
        assert(matching::by_position(m.side, m.base, fs, fb, y) is Some);
    }
}

/// Whether all other children of a class have namesakes.
pub open spec fn others_have_namesakes(d: DomModel, p: int, e: DomModel, q: int, x: usize) -> bool {
    forall|z: usize| #[trigger]
        is_child_of_class(d, p, d[x as int].class, z) && z != x ==> has_namesake(d, p, e, q, z)
}

/// Whether no child of a class has a name.
pub open spec fn is_new_name(d: DomModel, p: int, class: Text, name: Text) -> bool {
    forall|z: usize| #[trigger]
        is_child_of_class(d, p, class, z) ==> d[z as int].name != name
}

/// What no namesake paired of a class is the one instance without a namesake.
proof fn lemma_left_alone(
    b: DomModel,
    p: int,
    s: DomModel,
    q: int,
    fb: Seq<usize>,
    fs: Seq<usize>,
    x: usize,
)
    requires
        lists::increasing(fb),
        lists::increasing(fs),
        forall|z: usize| #[trigger]
            is_child_of_class(b, p, b[x as int].class, z) <==> fb.contains(z)
                && b[z as int].class == b[x as int].class,
        forall|z: usize| #[trigger]
            is_child_of_class(s, q, b[x as int].class, z) <==> fs.contains(z)
                && s[z as int].class == b[x as int].class,
        is_child_of_class(b, p, b[x as int].class, x),
        others_have_namesakes(b, p, s, q, x),
        is_new_name(s, q, b[x as int].class, b[x as int].name),
    ensures
        matching::by_position(b, s, fb, fs, x) is None,
        fb.filter(matching::left_over(b, s, fb, fs)).filter(
            matching::of_class(b, b[x as int].class),
        ) == seq![x],
{
    let (class, name) = (b[x as int].class, b[x as int].name);
    let other = matching::group_of(s, fs, class, name);
    if other.len() > 0 {
        assert(other.contains(other[0]));
        lists::lemma_filter_mem(fs, matching::of_class_and_name(s, class, name), other[0]);
        assert(is_child_of_class(s, q, class, other[0]));
    }
    let left = matching::left_over(b, s, fb, fs);
    let rest = fb.filter(left);
    let own = rest.filter(matching::of_class(b, class));
    lists::lemma_filter_increasing(fb, left);
    lists::lemma_filter_increasing(rest, matching::of_class(b, class));
    lists::lemma_filter_mem(fb, left, x);
    lists::lemma_filter_mem(rest, matching::of_class(b, class), x);
    assert forall|i: int| 0 <= i < own.len() implies #[trigger] own[i] == x by {
        let z = own[i];
        assert(own.contains(z));
        lists::lemma_filter_mem(rest, matching::of_class(b, class), z);
        lists::lemma_filter_mem(fb, left, z);
        assert(is_child_of_class(b, p, class, z));
        if z != x {
            assert(has_namesake(b, p, s, q, z));
            let y = choose|y: usize| #[trigger]
                is_child_of_class(s, q, b[z as int].class, y) && s[y as int].name
                    == b[z as int].name && is_named_alone(s, q, y);
            lemma_namesake(b, p, s, q, fb, fs, z, y);
        }
    }
    lemma_only(own, x);
}

/// An instance that got a new name is matched with itself: where it and the instance of the
/// new name are the only ones of their class under matched parents that have no namesakes,
/// and both hold the same, they are one.
pub proof fn law_renamed_instance_matches(m: Matching, p: int, q: int, x: usize, y: usize)
    requires
        m.wf(),
        0 <= p < m.base.len(),
        m.partner(p) == Some(q as usize),
        0 <= q < m.side.len(),
        is_anonymous(m, p, q, m.base[x as int].class),
        is_child_of_class(m.base, p, m.base[x as int].class, x),
        is_child_of_class(m.side, q, m.base[x as int].class, y),
        others_have_namesakes(m.base, p, m.side, q, x),
        others_have_namesakes(m.side, q, m.base, p, y),
        is_new_name(m.side, q, m.base[x as int].class, m.base[x as int].name),
        is_new_name(m.base, p, m.base[x as int].class, m.side[y as int].name),
        same_content(m.base[x as int], m.side[y as int]),
    ensures
        m.partner(x as int) == Some(y),
{
    let fb = m.free_base(p);
    let fs = m.free_side(q);
    matching::lemma_children(m.base, p);
    let k = m.base[p].children.index_of(x);
    assert(m.base[p].children[k] == x);
    lemma_not_first(m, x as int);
    lemma_free_children(m, p, q, m.base[x as int].class);
    matching::lemma_free(m, p, q);
    lemma_left_alone(m.base, p, m.side, q, fb, fs, x);
    lemma_left_alone(m.side, q, m.base, p, fs, fb, y);
    law_same_content_is_similar(m.base[x as int], m.side[y as int]);
    assert(seq![y][0] == y);
}

/// Two instances that are matched without a unique id, and are no services, are of one
/// class, stand under matched parents, and have one name or are similar.
pub proof fn law_match_is_founded(m: Matching, i: int, j: int)
    requires
        m.wf(),
        0 < i < m.base.len(),
        m.partner(i) == Some(j as usize),
        0 <= j < m.side.len(),
        semantic::node_unique_id(m.base[i]) is None,
        !(m.classes.contains_key(m.base[i].class) && m.classes[m.base[i].class].service),
    ensures
        m.base[i].class == m.side[j].class,
        m.base[i].parent is Some,
        m.side[j].parent is Some,
        m.partner(m.base[i].parent->0 as int) == Some(m.side[j].parent->0),
        m.base[i].name == m.side[j].name || matching::similar(m.base[i], m.side[j]),
{
    lemma_not_first(m, i);
    let p = m.base[i].parent->0 as int;
    matching::lemma_is_child(m.base, i);
    matching::lemma_partner(m, p);
    let q = m.partner(p)->0 as int;
    matching::lemma_under(m, p, q, i as usize);
    let fb = m.free_base(p);
    let fs = m.free_side(q);
    let c = i as usize;
    match matching::by_position(m.base, m.side, fb, fs, c) {
        Some(x) => {
            let class = m.base[i].class;
            let name = m.base[i].name;
            let other = matching::group_of(m.side, fs, class, name);
            assert(other.contains(x));
            lists::lemma_filter_mem(fs, matching::of_class_and_name(m.side, class, name), x);
        },
        None => {},
    }
}

} // verus!
