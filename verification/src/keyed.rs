//! Lists of named entries, sorted by name.

use vstd::prelude::*;

use crate::text::{same_text, text_less, Text};

verus! {

broadcast use vstd::seq::group_seq_axioms;

/// The entries of a list, each name by its characters and each value by its
/// view.
pub open spec fn view_list<T: View>(s: Seq<(String, T)>) -> Seq<(Text, T::V)> {
    s.map_values(|p: (String, T)| (p.0@, p.1@))
}

/// The names, in order.
pub open spec fn keys_of<V>(s: Seq<(Text, V)>) -> Seq<Text> {
    s.map_values(|p: (Text, V)| p.0)
}

/// Names in strictly ascending order.
pub open spec fn ascending(keys: Seq<Text>) -> bool {
    forall|i: int, j: int|
        0 <= i < j < keys.len() ==> crate::text::text_lt(#[trigger] keys[i], #[trigger] keys[j])
}

/// Entries sorted by name, each name once.
pub open spec fn sorted<V>(s: Seq<(Text, V)>) -> bool {
    forall|i: int, j: int|
        0 <= i < j < s.len() ==> crate::text::text_lt(
            (#[trigger] s[i]).0,
            (#[trigger] s[j]).0,
        )
}

/// The value of the first entry of that name.
pub open spec fn lookup<V>(s: Seq<(Text, V)>, key: Text) -> Option<V>
    decreases s.len(),
{
    if s.len() == 0 {
        None
    } else if s[0].0 == key {
        Some(s[0].1)
    } else {
        lookup(s.drop_first(), key)
    }
}

pub proof fn lemma_lookup_some<V>(s: Seq<(Text, V)>, key: Text) -> (i: int)
    requires
        lookup(s, key) is Some,
    ensures
        0 <= i < s.len(),
        s[i] == (key, lookup(s, key)->0),
        forall|j: int| 0 <= j < i ==> (#[trigger] s[j]).0 != key,
    decreases s.len(),
{
    if s[0].0 == key {
        0
    } else {
        let i = lemma_lookup_some(s.drop_first(), key);
        assert forall|j: int| 0 <= j < i + 1 implies (#[trigger] s[j]).0 != key by {
            if j > 0 {
                assert(s.drop_first()[j - 1] == s[j]);
            }
        }
        i + 1
    }
}

pub proof fn lemma_lookup_none<V>(s: Seq<(Text, V)>, key: Text)
    requires
        forall|j: int| 0 <= j < s.len() ==> (#[trigger] s[j]).0 != key,
    ensures
        lookup(s, key) is None,
{
    if lookup(s, key) is Some {
        let i = lemma_lookup_some(s, key);
    }
}

pub proof fn lemma_lookup_absent<V>(s: Seq<(Text, V)>, key: Text)
    requires
        lookup(s, key) is None,
    ensures
        forall|j: int| 0 <= j < s.len() ==> (#[trigger] s[j]).0 != key,
    decreases s.len(),
{
    if s.len() > 0 {
        lemma_lookup_absent(s.drop_first(), key);
        assert forall|j: int| 0 <= j < s.len() implies (#[trigger] s[j]).0 != key by {
            if j > 0 {
                assert(s.drop_first()[j - 1] == s[j]);
            }
        }
    }
}

pub proof fn lemma_lookup_first<V>(s: Seq<(Text, V)>, i: int)
    requires
        0 <= i < s.len(),
        forall|j: int| 0 <= j < i ==> (#[trigger] s[j]).0 != s[i].0,
    ensures
        lookup(s, s[i].0) == Some(s[i].1),
{
    let key = s[i].0;
    if lookup(s, key) is None {
        lemma_lookup_absent(s, key);
    } else {
        let k = lemma_lookup_some(s, key);
        if k < i {
            assert(s[k].0 != s[i].0);
        }
    }
}

/// In a sorted list every entry is the one that its name finds.
pub proof fn lemma_lookup_at<V>(s: Seq<(Text, V)>, i: int)
    requires
        sorted(s),
        0 <= i < s.len(),
    ensures
        lookup(s, s[i].0) == Some(s[i].1),
{
    assert forall|j: int| 0 <= j < i implies (#[trigger] s[j]).0 != s[i].0 by {
        crate::text::lemma_text_lt_asymmetric(s[j].0, s[i].0);
    }
    lemma_lookup_first(s, i);
}

/// Two sorted lists that find the same value under every name are equal.
pub proof fn lemma_sorted_determined<V>(a: Seq<(Text, V)>, b: Seq<(Text, V)>)
    requires
        sorted(a),
        sorted(b),
        forall|k: Text| #[trigger] lookup(a, k) == lookup(b, k),
    ensures
        a == b,
    decreases a.len(),
{
    if a.len() == 0 {
        if b.len() > 0 {
            lemma_lookup_at(b, 0);
            assert(lookup(a, b[0].0) is None);
        }
        assert(a =~= b);
    } else if b.len() == 0 {
        lemma_lookup_at(a, 0);
        assert(lookup(b, a[0].0) is None);
    } else {
        lemma_lookup_at(a, 0);
        lemma_lookup_at(b, 0);
        let i = lemma_lookup_some(b, a[0].0);
        let j = lemma_lookup_some(a, b[0].0);
        if i > 0 && j > 0 {
            crate::text::lemma_text_lt_asymmetric(b[0].0, b[i].0);
        }
        if i == 0 {
        } else if j == 0 {
        }
        assert(a[0] == b[0]);
        let ra = a.drop_first();
        let rb = b.drop_first();
        assert(sorted(ra)) by {
            assert forall|x: int, y: int| 0 <= x < y < ra.len() implies crate::text::text_lt(
                (#[trigger] ra[x]).0,
                (#[trigger] ra[y]).0,
            ) by {
                assert(ra[x] == a[x + 1] && ra[y] == a[y + 1]);
            }
        }
        assert(sorted(rb)) by {
            assert forall|x: int, y: int| 0 <= x < y < rb.len() implies crate::text::text_lt(
                (#[trigger] rb[x]).0,
                (#[trigger] rb[y]).0,
            ) by {
                assert(rb[x] == b[x + 1] && rb[y] == b[y + 1]);
            }
        }
        assert forall|k: Text| #[trigger] lookup(ra, k) == lookup(rb, k) by {
            if k == a[0].0 {
                assert forall|x: int| 0 <= x < ra.len() implies (#[trigger] ra[x]).0 != k by {
                    assert(ra[x] == a[x + 1]);
                    crate::text::lemma_text_lt_asymmetric(a[0].0, a[x + 1].0);
                }
                lemma_lookup_none(ra, k);
                assert forall|x: int| 0 <= x < rb.len() implies (#[trigger] rb[x]).0 != k by {
                    assert(rb[x] == b[x + 1]);
                    crate::text::lemma_text_lt_asymmetric(b[0].0, b[x + 1].0);
                }
                lemma_lookup_none(rb, k);
            } else {
                assert(lookup(a, k) == lookup(b, k));
            }
        }
        lemma_sorted_determined(ra, rb);
        assert(a =~= seq![a[0]] + ra);
        assert(b =~= seq![b[0]] + rb);
    }
}

/// Finds the value of the first entry named `key`.
pub fn find<'a, T: View>(list: &'a Vec<(String, T)>, key: &str) -> (res: Option<&'a T>)
    ensures
        match res {
            Some(value) => lookup(view_list(list@), key@) == Some(value@),
            None => lookup(view_list(list@), key@) is None,
        },
{
    let ghost view = view_list(list@);
    let mut i: usize = 0;
    while i < list.len()
        invariant
            i <= list.len(),
            view == view_list(list@),
            forall|j: int| 0 <= j < i ==> (#[trigger] view[j]).0 != key@,
        decreases list.len() - i,
    {
        if same_text(list[i].0.as_str(), key) {
            proof {
                assert(view[i as int].0 == key@);
                lemma_lookup_first(view, i as int);
            }
            return Some(&list[i].1);
        }
        assert(view[i as int].0 != key@);
        i += 1;
    }
    proof {
        lemma_lookup_none(view, key@);
    }
    None
}

/// Adds an entry whose name the list does not have yet, in its place.
pub fn insert_entry<T: View>(list: &mut Vec<(String, T)>, key: String, value: T)
    requires
        sorted(view_list(old(list)@)),
        lookup(view_list(old(list)@), key@) is None,
    ensures
        sorted(view_list(final(list)@)),
        forall|k: Text| #[trigger]
            lookup(view_list(final(list)@), k) == (if k == key@ {
                Some(value@)
            } else {
                lookup(view_list(old(list)@), k)
            }),
{
    let ghost before = view_list(list@);
    let mut i: usize = 0;
    while i < list.len() && text_less(list[i].0.as_str(), key.as_str())
        invariant
            i <= list.len(),
            before == view_list(list@),
            forall|j: int| 0 <= j < i ==> crate::text::text_lt((#[trigger] before[j]).0, key@),
        decreases list.len() - i,
    {
        assert(before[i as int].0 == list@[i as int].0@);
        i += 1;
    }
    let ghost k0 = key@;
    let ghost v0 = value@;
    proof {
        lemma_lookup_absent(before, key@);
        assert forall|j: int| i <= j < before.len() implies crate::text::text_lt(
            k0,
            (#[trigger] before[j]).0,
        ) by {
            assert(before[i as int].0 == list@[i as int].0@);
            crate::text::lemma_text_lt_total(before[i as int].0, k0);
            if j > i {
                crate::text::lemma_text_lt_transitive(k0, before[i as int].0, before[j].0);
            }
        }
    }
    list.insert(i, (key, value));
    proof {
        let after = view_list(list@);
        assert(after =~= before.insert(i as int, (k0, v0)));
        assert forall|x: int, y: int| 0 <= x < y < after.len() implies crate::text::text_lt(
            (#[trigger] after[x]).0,
            (#[trigger] after[y]).0,
        ) by {
            if x < i && y < i {
                assert(crate::text::text_lt(before[x].0, before[y].0));
            } else if x < i && y == i {
                assert(crate::text::text_lt(before[x].0, k0));
            } else if x < i {
                assert(crate::text::text_lt(before[x].0, before[y - 1].0));
            } else if x == i {
                assert(crate::text::text_lt(k0, before[y - 1].0));
            } else {
                assert(crate::text::text_lt(before[x - 1].0, before[y - 1].0));
            }
        }
        assert forall|k: Text| #[trigger] lookup(after, k) == (if k == k0 {
            Some(v0)
        } else {
            lookup(before, k)
        }) by {
            if k == k0 {
                lemma_lookup_at(after, i as int);
            } else if lookup(before, k) is Some {
                let j = lemma_lookup_some(before, k);
                if j < i {
                    lemma_lookup_at(after, j);
                } else {
                    lemma_lookup_at(after, j + 1);
                }
            } else {
                lemma_lookup_absent(before, k);
                assert forall|j: int| 0 <= j < after.len() implies (#[trigger] after[j]).0 != k by {
                    if j < i {
                        assert(after[j] == before[j]);
                    } else if j > i {
                        assert(after[j] == before[j - 1]);
                    }
                }
                lemma_lookup_none(after, k);
            }
        }
    }
}

/// The names that occur in either list, ascending, each once; both lists are
/// ascending.
pub open spec fn key_union(a: Seq<Text>, b: Seq<Text>) -> Seq<Text>
    decreases a.len() + b.len(),
{
    if a.len() == 0 {
        b
    } else if b.len() == 0 {
        a
    } else if a[0] == b[0] {
        seq![a[0]] + key_union(a.drop_first(), b.drop_first())
    } else if crate::text::text_lt(a[0], b[0]) {
        seq![a[0]] + key_union(a.drop_first(), b)
    } else {
        seq![b[0]] + key_union(a, b.drop_first())
    }
}

proof fn lemma_ascending_tail(a: Seq<Text>)
    requires
        ascending(a),
        a.len() > 0,
    ensures
        ascending(a.drop_first()),
{
    let t = a.drop_first();
    assert forall|i: int, j: int| 0 <= i < j < t.len() implies crate::text::text_lt(
        #[trigger] t[i],
        #[trigger] t[j],
    ) by {
        assert(t[i] == a[i + 1] && t[j] == a[j + 1]);
    }
}

/// The union holds exactly the names of both lists.
pub proof fn lemma_key_union_contains(a: Seq<Text>, b: Seq<Text>, k: Text)
    ensures
        key_union(a, b).contains(k) <==> a.contains(k) || b.contains(k),
    decreases a.len() + b.len(),
{
    if a.len() == 0 || b.len() == 0 {
    } else {
        let (first, ra, rb) = if a[0] == b[0] {
            (a[0], a.drop_first(), b.drop_first())
        } else if crate::text::text_lt(a[0], b[0]) {
            (a[0], a.drop_first(), b)
        } else {
            (b[0], a, b.drop_first())
        };
        lemma_key_union_contains(ra, rb, k);
        let u = key_union(ra, rb);
        let all = key_union(a, b);
        assert(all =~= seq![first] + u);
        assert(all[0] == first);
        if u.contains(k) {
            let i = u.index_of(k);
            assert(all[i + 1] == k);
        }
        if all.contains(k) {
            let i = all.index_of(k);
            if i > 0 {
                assert(u[i - 1] == k);
            }
        }
        if a.contains(k) {
            let i = a.index_of(k);
            if i > 0 {
                assert(a.drop_first()[i - 1] == k);
            }
        }
        if b.contains(k) {
            let i = b.index_of(k);
            if i > 0 {
                assert(b.drop_first()[i - 1] == k);
            }
        }
        if a.drop_first().contains(k) {
            let i = a.drop_first().index_of(k);
            assert(a[i + 1] == k);
        }
        if b.drop_first().contains(k) {
            let i = b.drop_first().index_of(k);
            assert(b[i + 1] == k);
        }
    }
}

/// The union of ascending lists is ascending.
pub proof fn lemma_key_union_ascending(a: Seq<Text>, b: Seq<Text>)
    requires
        ascending(a),
        ascending(b),
    ensures
        ascending(key_union(a, b)),
    decreases a.len() + b.len(),
{
    if a.len() == 0 || b.len() == 0 {
    } else {
        let (first, ra, rb) = if a[0] == b[0] {
            (a[0], a.drop_first(), b.drop_first())
        } else if crate::text::text_lt(a[0], b[0]) {
            (a[0], a.drop_first(), b)
        } else {
            (b[0], a, b.drop_first())
        };
        lemma_ascending_tail(a);
        lemma_ascending_tail(b);
        lemma_key_union_ascending(ra, rb);
        crate::text::lemma_text_lt_total(a[0], b[0]);
        let u = key_union(ra, rb);
        let all = key_union(a, b);
        assert(all =~= seq![first] + u);
        assert forall|i: int, j: int| 0 <= i < j < all.len() implies crate::text::text_lt(
            #[trigger] all[i],
            #[trigger] all[j],
        ) by {
            if i == 0 {
                let k = u[j - 1];
                assert(u.contains(k));
                lemma_key_union_contains(ra, rb, k);
                if ra.contains(k) {
                    let x = ra.index_of(k);
                    if ra == a {
                        if x > 0 {
                            assert(crate::text::text_lt(a[0], a[x]));
                            crate::text::lemma_text_lt_transitive(first, a[0], k);
                        }
                    } else {
                        assert(a[x + 1] == k);
                        assert(crate::text::text_lt(a[0], a[x + 1]));
                    }
                } else {
                    let x = rb.index_of(k);
                    if rb == b {
                        if x > 0 {
                            assert(crate::text::text_lt(b[0], b[x]));
                            crate::text::lemma_text_lt_transitive(first, b[0], k);
                        }
                    } else {
                        assert(b[x + 1] == k);
                        assert(crate::text::text_lt(b[0], b[x + 1]));
                    }
                }
            } else {
                assert(all[i] == u[i - 1] && all[j] == u[j - 1]);
            }
        }
    }
}

/// The names of `list`, in order.
pub fn list_keys<T: View>(list: &Vec<(String, T)>) -> (res: Vec<String>)
    ensures
        crate::text::strings_view(res@) == keys_of(view_list(list@)),
{
    let mut out: Vec<String> = Vec::new();
    let mut i: usize = 0;
    while i < list.len()
        invariant
            i <= list.len(),
            out.len() == i,
            forall|j: int| 0 <= j < i ==> (#[trigger] out@[j])@ == list@[j].0@,
        decreases list.len() - i,
    {
        out.push(list[i].0.clone());
        i += 1;
    }
    assert(crate::text::strings_view(out@) =~= keys_of(view_list(list@)));
    out
}

/// Merges two ascending lists of names.
pub fn merge_keys(a: &Vec<String>, b: &Vec<String>) -> (res: Vec<String>)
    ensures
        crate::text::strings_view(res@) == key_union(
            crate::text::strings_view(a@),
            crate::text::strings_view(b@),
        ),
{
    let ghost va = crate::text::strings_view(a@);
    let ghost vb = crate::text::strings_view(b@);
    let mut out: Vec<String> = Vec::new();
    let mut i: usize = 0;
    let mut j: usize = 0;
    assert(va.skip(0) =~= va);
    assert(vb.skip(0) =~= vb);
    assert(crate::text::strings_view(out@) =~= Seq::<Text>::empty());
    assert(crate::text::strings_view(out@) + key_union(va, vb) =~= key_union(va, vb));
    while i < a.len() || j < b.len()
        invariant
            i <= a.len(),
            j <= b.len(),
            va == crate::text::strings_view(a@),
            vb == crate::text::strings_view(b@),
            crate::text::strings_view(out@) + key_union(va.skip(i as int), vb.skip(j as int))
                == key_union(va, vb),
        decreases (a.len() - i) + (b.len() - j),
    {
        let ghost ra = va.skip(i as int);
        let ghost rb = vb.skip(j as int);
        let ghost so_far = crate::text::strings_view(out@);
        proof {
            if i < a.len() {
                assert(ra[0] == va[i as int]);
                assert(ra.drop_first() =~= va.skip(i + 1));
            }
            if j < b.len() {
                assert(rb[0] == vb[j as int]);
                assert(rb.drop_first() =~= vb.skip(j + 1));
            }
        }
        if j == b.len() {
            out.push(a[i].clone());
            assert(key_union(ra, rb) =~= seq![ra[0]] + ra.drop_first());
            assert(key_union(ra.drop_first(), rb) =~= ra.drop_first());
            i += 1;
            assert(crate::text::strings_view(out@) =~= so_far.push(ra[0]));
        } else if i == a.len() {
            out.push(b[j].clone());
            assert(key_union(ra, rb) =~= seq![rb[0]] + rb.drop_first());
            assert(key_union(ra, rb.drop_first()) =~= rb.drop_first());
            j += 1;
            assert(crate::text::strings_view(out@) =~= so_far.push(rb[0]));
        } else if same_text(a[i].as_str(), b[j].as_str()) {
            out.push(a[i].clone());
            i += 1;
            j += 1;
            assert(crate::text::strings_view(out@) =~= so_far.push(ra[0]));
        } else if text_less(a[i].as_str(), b[j].as_str()) {
            out.push(a[i].clone());
            i += 1;
            assert(crate::text::strings_view(out@) =~= so_far.push(ra[0]));
        } else {
            out.push(b[j].clone());
            j += 1;
            assert(crate::text::strings_view(out@) =~= so_far.push(rb[0]));
        }
        proof {
            let first = crate::text::strings_view(out@).last();
            let rest = key_union(va.skip(i as int), vb.skip(j as int));
            assert(so_far.push(first) + rest =~= so_far + (seq![first] + rest));
        }
    }
    assert(va.skip(i as int) =~= Seq::<Text>::empty());
    assert(vb.skip(j as int) =~= Seq::<Text>::empty());
    assert(crate::text::strings_view(out@) + Seq::<Text>::empty() =~= crate::text::strings_view(
        out@,
    ));
    out
}

} // verus!
