//! Facts about lists of ids and about filtering them.

use vstd::prelude::*;

verus! {

/// Ids in strictly ascending order.
pub open spec fn increasing(s: Seq<usize>) -> bool {
    forall|i: int, j: int| 0 <= i < j < s.len() ==> (#[trigger] s[i]) < (#[trigger] s[j])
}

/// Filtering one element more.
pub proof fn lemma_filter_step<A>(s: Seq<A>, pred: spec_fn(A) -> bool, i: int)
    requires
        0 <= i < s.len(),
    ensures
        s.take(i + 1).filter(pred) == (if pred(s[i]) {
            s.take(i).filter(pred).push(s[i])
        } else {
            s.take(i).filter(pred)
        }),
{
    reveal(Seq::filter);
    assert(s.take(i + 1).drop_last() =~= s.take(i));
}

pub proof fn lemma_filter_none<A>(s: Seq<A>, pred: spec_fn(A) -> bool)
    ensures
        s.take(0).filter(pred) == Seq::<A>::empty(),
{
    reveal(Seq::filter);
}

/// Filtering all elements.
pub proof fn lemma_filter_all<A>(s: Seq<A>, pred: spec_fn(A) -> bool)
    ensures
        s.take(s.len() as int).filter(pred) == s.filter(pred),
{
    assert(s.take(s.len() as int) =~= s);
}

/// Filtering a list whose elements all pass.
pub proof fn lemma_filter_keeps<A>(s: Seq<A>, pred: spec_fn(A) -> bool)
    requires
        forall|i: int| 0 <= i < s.len() ==> pred(#[trigger] s[i]),
    ensures
        s.filter(pred) == s,
    decreases s.len(),
{
    reveal(Seq::filter);
    if s.len() > 0 {
        let t = s.drop_last();
        assert forall|i: int| 0 <= i < t.len() implies pred(#[trigger] t[i]) by {
            assert(t[i] == s[i]);
        }
        lemma_filter_keeps(t, pred);
        assert(pred(s[s.len() - 1]));
        assert(t.push(s.last()) =~= s);
    }
}

/// Filtering a list of whose elements none passes.
pub proof fn lemma_filter_drops<A>(s: Seq<A>, pred: spec_fn(A) -> bool)
    requires
        forall|i: int| 0 <= i < s.len() ==> !pred(#[trigger] s[i]),
    ensures
        s.filter(pred) == Seq::<A>::empty(),
    decreases s.len(),
{
    reveal(Seq::filter);
    if s.len() > 0 {
        let t = s.drop_last();
        assert forall|i: int| 0 <= i < t.len() implies !pred(#[trigger] t[i]) by {
            assert(t[i] == s[i]);
        }
        lemma_filter_drops(t, pred);
        assert(!pred(s[s.len() - 1]));
    }
}

/// What a filtered list holds.
pub proof fn lemma_filter_mem<A>(s: Seq<A>, pred: spec_fn(A) -> bool, x: A)
    ensures
        s.filter(pred).contains(x) <==> s.contains(x) && pred(x),
    decreases s.len(),
{
    reveal(Seq::filter);
    if s.len() > 0 {
        let t = s.drop_last();
        lemma_filter_mem(t, pred, x);
        let f = s.filter(pred);
        let g = t.filter(pred);
        if s.contains(x) {
            let i = s.index_of(x);
            if i < t.len() {
                assert(t[i] == x);
            }
        }
        if t.contains(x) {
            let i = t.index_of(x);
            assert(s[i] == x);
        }
        if pred(s.last()) {
            assert(f == g.push(s.last()));
            assert(f[g.len() as int] == s.last());
            assert(s[s.len() - 1] == s.last());
            if f.contains(x) {
                let i = f.index_of(x);
                if i < g.len() {
                    assert(g[i] == x);
                }
            }
            if g.contains(x) {
                let i = g.index_of(x);
                assert(f[i] == x);
            }
        }
    }
}

/// An ascending list stays ascending.
pub proof fn lemma_filter_increasing(s: Seq<usize>, pred: spec_fn(usize) -> bool)
    requires
        increasing(s),
    ensures
        increasing(s.filter(pred)),
    decreases s.len(),
{
    reveal(Seq::filter);
    if s.len() > 0 {
        let t = s.drop_last();
        assert(increasing(t)) by {
            assert forall|i: int, j: int| 0 <= i < j < t.len() implies (#[trigger] t[i]) < (
            #[trigger] t[j]) by {
                assert(s[i] < s[j]);
            }
        }
        lemma_filter_increasing(t, pred);
        let g = t.filter(pred);
        let f = s.filter(pred);
        if pred(s.last()) {
            assert forall|i: int, j: int| 0 <= i < j < f.len() implies (#[trigger] f[i]) < (
            #[trigger] f[j]) by {
                if j < g.len() {
                    assert(g[i] < g[j]);
                } else {
                    assert(g.contains(g[i]));
                    lemma_filter_mem(t, pred, g[i]);
                    let k = t.index_of(g[i]);
                    assert(s[k] < s[s.len() - 1]);
                }
            }
        }
    }
}

/// In an ascending list every id has one place.
pub proof fn lemma_index_of(s: Seq<usize>, i: int)
    requires
        increasing(s),
        0 <= i < s.len(),
    ensures
        s.index_of(s[i]) == i,
        s.contains(s[i]),
{
    let k = s.index_of(s[i]);
    assert(s[k] == s[i]);
    if k < i {
        assert(s[k] < s[i]);
    } else if i < k {
        assert(s[i] < s[k]);
    }
}

/// A list of one element holds only that element.
pub proof fn lemma_single(s: Seq<usize>, x: usize)
    requires
        s.len() == 1,
        s.contains(x),
    ensures
        s[0] == x,
{
}

} // verus!
