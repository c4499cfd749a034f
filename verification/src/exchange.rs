//! Exchanging ours and theirs: the rows are the same ones in another order, and every
//! value is merged to the same effect.

use vstd::prelude::*;

use crate::additions;
use crate::additions::Additions;
use crate::agreement_laws;
use crate::context;
use crate::context::Ctx;
use crate::copy_laws;
use crate::dom;
use crate::files;
use crate::identity;
use crate::identity::MergeEntry;
use crate::keyed;
use crate::lists;
use crate::matching;
use crate::matching::Classes;
use crate::properties;
use crate::properties::{PropertyOutcome, Values};
use crate::references;
use crate::resolve::Side;
use crate::semantic;
use crate::semantic::{InstanceModel, ValueSource};
use crate::text;
use crate::text::Text;
use crate::three_way::Sides;
use crate::value;
use crate::value::ValueModel;

verus! {

// ---------------------------------------------------------------------------
// Similarity
// ---------------------------------------------------------------------------

proof fn lemma_key_union_commutes(a: Seq<Text>, b: Seq<Text>)
    ensures
        keyed::key_union(a, b) == keyed::key_union(b, a),
    decreases a.len() + b.len(),
{
    if a.len() == 0 || b.len() == 0 {
        if a.len() == 0 && b.len() == 0 {
            assert(a =~= b);
        }
    } else if a[0] == b[0] {
        lemma_key_union_commutes(a.drop_first(), b.drop_first());
    } else {
        text::lemma_text_lt_total(a[0], b[0]);
        if text::text_lt(a[0], b[0]) {
            text::lemma_text_lt_asymmetric(a[0], b[0]);
            lemma_key_union_commutes(a.drop_first(), b);
        } else {
            lemma_key_union_commutes(a, b.drop_first());
        }
    }
}

proof fn lemma_raw_equal_symmetric(a: ValueModel, b: ValueModel)
    ensures
        value::raw_equal(a, b) == value::raw_equal(b, a),
    decreases a,
{
    if let (ValueModel::Attributes(x), ValueModel::Attributes(y)) = (a, b) {
        if x.len() == y.len() {
            assert forall|i: int| 0 <= i < x.len() implies value::raw_equal(
                (#[trigger] x[i]).1,
                y[i].1,
            ) == value::raw_equal(y[i].1, x[i].1) by {
                lemma_raw_equal_symmetric(x[i].1, y[i].1);
            }
            if value::raw_equal(a, b) {
                assert forall|i: int| 0 <= i < y.len() implies (#[trigger] y[i]).0 == x[i].0
                    && value::raw_equal(y[i].1, x[i].1) by {
                    assert(x[i].0 == y[i].0);
                }
            }
            if value::raw_equal(b, a) {
                assert forall|i: int| 0 <= i < x.len() implies (#[trigger] x[i]).0 == y[i].0
                    && value::raw_equal(x[i].1, y[i].1) by {
                    assert(y[i].0 == x[i].0);
                }
            }
        }
    }
}

proof fn lemma_count_symmetric(a: InstanceModel, b: InstanceModel, keys: Seq<Text>)
    ensures
        matching::count_equal(a, b, keys) == matching::count_equal(b, a, keys),
    decreases keys.len(),
{
    if keys.len() > 0 {
        lemma_count_symmetric(a, b, keys.drop_last());
        let key = keys.last();
        if let (Some(x), Some(y)) = (
            keyed::lookup(a.properties, key),
            keyed::lookup(b.properties, key),
        ) {
            lemma_raw_equal_symmetric(x, y);
        }
    }
}

/// Similarity goes both ways.
pub proof fn lemma_similar_symmetric(a: InstanceModel, b: InstanceModel)
    ensures
        matching::similar(a, b) == matching::similar(b, a),
{
    lemma_key_union_commutes(keyed::keys_of(a.properties), keyed::keys_of(b.properties));
    lemma_count_symmetric(a, b, matching::content_keys(a, b));
}

// ---------------------------------------------------------------------------
// Additions
// ---------------------------------------------------------------------------

/// The additions with the sides exchanged.
pub open spec fn exchanged(a: Additions) -> Additions {
    Additions {
        ours: a.theirs,
        theirs: a.ours,
        base_to_ours: a.base_to_theirs,
        base_to_theirs: a.base_to_ours,
    }
}

proof fn lemma_by_id(a: Additions, t: int, o: int)
    requires
        a.wf(),
        0 <= t < a.theirs.len(),
        0 <= o < a.ours.len(),
        a.by_id(t) == Some(o as usize),
    ensures
        exchanged(a).by_id(o) == Some(t as usize),
        exchanged(a).new_theirs()[o],
{
    let id = semantic::node_unique_id(a.theirs[t])->0;
    let i = choose|i: int| matching::is_sole(a.ours, a.new_ours(), i, id);
    assert(matching::is_sole(a.ours, a.new_ours(), i, id));
    assert(matching::holds_id(a.ours, a.new_ours(), i, id));
    assert(i == o);
    assert(matching::is_sole(a.theirs, a.new_theirs(), t, id));
    assert(exchanged(a).new_theirs() =~= a.new_ours());
    assert(exchanged(a).new_ours() =~= a.new_theirs());
    matching::lemma_sole(a.theirs, a.new_theirs(), t, id);
}

proof fn lemma_taken(a: Additions, t: int)
    requires
        a.wf(),
        0 <= t < a.theirs.len(),
    ensures
        exchanged(a).taken_by_id(t) <==> a.by_id(t) is Some,
{
    let e = exchanged(a);
    if a.by_id(t) is Some {
        matching::lemma_id_match_some(a.theirs, a.new_theirs(), t, a.ours, a.new_ours());
        let o = a.by_id(t)->0 as int;
        lemma_by_id(a, t, o);
        assert(e.by_id(o) == Some(t as usize));
    }
    if e.taken_by_id(t) {
        let o = choose|o: int|
            0 <= o < e.theirs.len() && #[trigger] e.by_id(o) == Some(t as usize);
        lemma_by_id(e, o, t);
        assert(exchanged(e) == a);
    }
}

/// What an addition of ours may be is the same, whichever side is called ours.
proof fn lemma_candidates(a: Additions, p: int, o: usize)
    requires
        a.wf(),
        0 <= p < a.theirs.len(),
        o < a.ours.len(),
    ensures
        exchanged(a).candidates(p, o) == a.rivals(p, o),
{
    let e = exchanged(a);
    let list = a.theirs[p].children;
    matching::lemma_children(a.theirs, p);
    assert(e.new_ours() =~= a.new_theirs());
    assert forall|i: int| 0 <= i < list.len() implies (e.may_be_ours(o))(#[trigger] list[i]) == (
    a.may_be_theirs(o))(list[i]) by {
        let t = list[i];
        lemma_taken(a, t as int);
        lemma_similar_symmetric(a.ours[o as int], a.theirs[t as int]);
    }
    copy_laws::lemma_filter_same(list, e.may_be_ours(o), a.may_be_theirs(o));
}

/// Additions are the same addition, whichever side is called ours.
proof fn lemma_partner(a: Additions, t: int, o: int)
    requires
        a.wf(),
        0 <= t < a.theirs.len(),
        0 <= o < a.ours.len(),
        a.new_theirs()[t],
        a.partner(t) == Some(o as usize),
    ensures
        exchanged(a).partner(o) == Some(t as usize),
        exchanged(a).new_theirs()[o],
    decreases t,
{
    reveal(Additions::partner);
    let e = exchanged(a);
    assert(e.new_theirs() =~= a.new_ours());
    assert(e.new_ours() =~= a.new_theirs());
    additions::lemma_added_partner(a, t);
    if a.by_id(t) is Some {
        lemma_by_id(a, t, o);
    } else {
        let q = a.parent_in_ours(t)->0 as int;
        let p = a.theirs[t].parent->0 as int;
        assert(a.ours[o].parent == Some(q as usize));
        assert(o > 0) by {
            assert(a.ours[0].parent is None);
        }
        matching::lemma_is_child(a.ours, o);
        matching::lemma_is_child(a.theirs, t);
        assert(e.by_id(o) is None) by {
            if e.by_id(o) is Some {
                matching::lemma_id_match_some(e.theirs, e.new_theirs(), o, e.ours, e.new_ours());
                let u = e.by_id(o)->0 as int;
                lemma_by_id(e, o, u);
                assert(exchanged(e) == a);
                assert(a.by_id(u) == Some(o as usize));
                assert(a.taken_by_id(o));
            }
        }
        assert(e.parent_in_ours(o) == Some(p as usize)) by {
            if a.new_theirs()[p] {
                additions::lemma_added_partner(a, p);
                lemma_partner(a, p, q);
            } else {
                additions::lemma_is_target(a.base_to_theirs, p);
                let i = additions::source_of(a.base_to_theirs, p);
                additions::lemma_source_of(a.base_to_ours, a.ours.len() as int, i);
                assert(additions::is_target(a.base_to_ours, q));
            }
        }
        lemma_candidates(a, p, o as usize);
        lemma_candidates(e, q, t as usize);
        assert(exchanged(e) == a);
        let rivals = a.rivals(p, o as usize);
        lists::lemma_filter_mem(a.theirs[p].children, a.may_be_theirs(o as usize), t as usize);
        assert(a.alike(o as usize, t as usize));
        assert(rivals.contains(t as usize));
        lists::lemma_single(rivals, t as usize);
    }
}

// ---------------------------------------------------------------------------
// Rows
// ---------------------------------------------------------------------------

/// A row with the sides exchanged.
pub open spec fn turned(entry: MergeEntry) -> MergeEntry {
    MergeEntry { base: entry.base, ours: entry.theirs, theirs: entry.ours }
}

/// The row of `d` that is row `r` of `c`.
pub open spec fn across(c: Ctx, d: Ctx, r: usize) -> usize {
    let entry = c.rows.entries[r as int];
    match (entry.base, entry.ours, entry.theirs) {
        (Some(_), _, _) => r,
        (None, Some(o), _) => d.rows.theirs_rows[o as int],
        (None, None, Some(t)) => d.rows.ours_rows[t as int],
        (None, None, None) => r,
    }
}

/// Every row of `c` is a row of `d` with the sides exchanged.
pub open spec fn rows_turned(c: Ctx, d: Ctx) -> bool {
    forall|r: int|
        0 <= r < c.rows.entries.len() ==> across(c, d, r as usize) < d.rows.entries.len()
            && d.rows.entries[across(c, d, r as usize) as int] == turned(
            #[trigger] c.rows.entries[r],
        )
}

/// Whether `d` is `c` with ours and theirs exchanged.
pub open spec fn is_exchanged(c: Ctx, d: Ctx) -> bool {
    &&& c.wf()
    &&& d.wf()
    &&& d.base == c.base
    &&& d.ours == c.theirs
    &&& d.theirs == c.ours
    &&& rows_turned(c, d)
    &&& rows_turned(d, c)
}

/// A row of additions has no instance of the base.
proof fn lemma_added_row(c: Ctx, a: Additions, r: int)
    requires
        c.wf(),
        a.wf(),
        c.rows.entries == identity::identity_rows(a),
        c.ours == a.ours,
        c.theirs == a.theirs,
        a.base_to_ours.len() == c.base.len(),
        c.base.len() <= r < c.rows.entries.len(),
    ensures
        c.rows.entries[r].base is None,
        match (c.rows.entries[r].ours, c.rows.entries[r].theirs) {
            (Some(o), theirs) => {
                &&& o < a.ours.len()
                &&& a.new_ours()[o as int]
                &&& theirs == identity::theirs_of(a, o as int)
            },
            (None, Some(t)) => {
                &&& t < a.theirs.len()
                &&& a.new_theirs()[t as int]
                &&& a.partner(t as int) is None
            },
            (None, None) => false,
        },
{
    identity::lemma_row(a, r);
    identity::lemma_marked(a.new_ours(), a.ours.len() as int);
    identity::lemma_marked(identity::lone_theirs(a), a.theirs.len() as int);
    let n = a.base_to_ours.len() as int;
    let mo = identity::marked(a.new_ours(), a.ours.len() as int);
    let mt = identity::marked(identity::lone_theirs(a), a.theirs.len() as int);
    if r < n + mo.len() {
        assert(a.new_ours()[mo[r - n] as int]);
    } else {
        assert(identity::lone_theirs(a)[mt[r - n - mo.len()] as int]);
    }
}

/// The addition of theirs that is an addition of ours.
proof fn lemma_theirs_of(a: Additions, o: int)
    requires
        a.wf(),
        0 <= o < a.ours.len(),
        identity::theirs_of(a, o) is Some,
    ensures
        ({
            let t = identity::theirs_of(a, o)->0 as int;
            &&& 0 <= t < a.theirs.len()
            &&& a.new_theirs()[t]
            &&& a.partner(t) == Some(o as usize)
        }),
{
    let t = choose|t: int|
        0 <= t < a.theirs.len() && a.new_theirs()[t] && #[trigger] a.partner(t) == Some(o as usize);
    assert(t as usize == t);
}

/// What a row of ours additions becomes.
proof fn lemma_ours_row_turned(c: Ctx, d: Ctx, a: Additions, r: int)
    requires
        c.wf(),
        d.wf(),
        a.wf(),
        exchanged(a).wf(),
        c.base == d.base,
        c.ours == a.ours,
        c.theirs == a.theirs,
        d.ours == a.theirs,
        d.theirs == a.ours,
        a.base_to_ours.len() == c.base.len(),
        c.rows.entries == identity::identity_rows(a),
        d.rows.entries == identity::identity_rows(exchanged(a)),
        c.base.len() <= r < c.rows.entries.len(),
        c.rows.entries[r].ours is Some,
    ensures
        ({
            let s = d.rows.theirs_rows[c.rows.entries[r].ours->0 as int] as int;
            d.rows.entries[s] == turned(c.rows.entries[r])
        }),
{
    let e = exchanged(a);
    let o = c.rows.entries[r].ours->0 as int;
    lemma_added_row(c, a, r);
    let s = d.rows.theirs_rows[o] as int;
    assert(d.rows.entries[s].theirs == Some(o as usize));
    assert(e.new_theirs() =~= a.new_ours());
    assert(e.new_ours() =~= a.new_theirs());
    if s < d.base.len() {
        identity::lemma_row(e, s);
        assert(a.base_to_ours[s] == Some(o as usize));
        assert(additions::is_target(a.base_to_ours, o));
    } else {
        lemma_added_row(d, e, s);
        if identity::theirs_of(a, o) is Some {
            lemma_theirs_of(a, o);
            let t = identity::theirs_of(a, o)->0 as int;
            lemma_partner(a, t, o);
        }
        if let Some(u) = d.rows.entries[s].ours {
            lemma_theirs_of(e, u as int);
            lemma_partner(e, o, u as int);
            assert(exchanged(e) == a);
            assert(a.partner(u as int) == Some(o as usize));
        }
    }
}

/// What a row of an addition of theirs alone becomes.
proof fn lemma_lone_row_turned(c: Ctx, d: Ctx, a: Additions, r: int)
    requires
        c.wf(),
        d.wf(),
        a.wf(),
        exchanged(a).wf(),
        c.base == d.base,
        c.ours == a.ours,
        c.theirs == a.theirs,
        d.ours == a.theirs,
        d.theirs == a.ours,
        a.base_to_ours.len() == c.base.len(),
        c.rows.entries == identity::identity_rows(a),
        d.rows.entries == identity::identity_rows(exchanged(a)),
        c.base.len() <= r < c.rows.entries.len(),
        c.rows.entries[r].ours is None,
    ensures
        ({
            let s = d.rows.ours_rows[c.rows.entries[r].theirs->0 as int] as int;
            d.rows.entries[s] == turned(c.rows.entries[r])
        }),
{
    let e = exchanged(a);
    lemma_added_row(c, a, r);
    let t = c.rows.entries[r].theirs->0 as int;
    let s = d.rows.ours_rows[t] as int;
    assert(d.rows.entries[s].ours == Some(t as usize));
    assert(e.new_theirs() =~= a.new_ours());
    assert(e.new_ours() =~= a.new_theirs());
    if s < d.base.len() {
        identity::lemma_row(e, s);
        assert(a.base_to_theirs[s] == Some(t as usize));
        assert(additions::is_target(a.base_to_theirs, t));
    } else {
        lemma_added_row(d, e, s);
        if identity::theirs_of(e, t) is Some {
            lemma_theirs_of(e, t);
            let o = identity::theirs_of(e, t)->0 as int;
            lemma_partner(e, o, t);
            assert(exchanged(e) == a);
        }
    }
}

proof fn lemma_rows_turned(c: Ctx, d: Ctx, a: Additions)
    requires
        c.wf(),
        d.wf(),
        a.wf(),
        exchanged(a).wf(),
        c.base == d.base,
        c.ours == a.ours,
        c.theirs == a.theirs,
        d.ours == a.theirs,
        d.theirs == a.ours,
        a.base_to_ours.len() == c.base.len(),
        c.rows.entries == identity::identity_rows(a),
        d.rows.entries == identity::identity_rows(exchanged(a)),
    ensures
        rows_turned(c, d),
{
    assert forall|r: int| 0 <= r < c.rows.entries.len() implies across(c, d, r as usize)
        < d.rows.entries.len() && d.rows.entries[across(c, d, r as usize) as int] == turned(
        #[trigger] c.rows.entries[r],
    ) by {
        context::lemma_entry_wf(c, r);
        if r < c.base.len() {
            identity::lemma_row(a, r);
            identity::lemma_row(exchanged(a), r);
        } else if c.rows.entries[r].ours is Some {
            lemma_ours_row_turned(c, d, a, r);
        } else {
            lemma_lone_row_turned(c, d, a, r);
        }
    }
}

/// Rows that were found with the sides exchanged are the same rows.
pub proof fn lemma_is_exchanged(c: Ctx, d: Ctx, classes: Classes)
    requires
        c.wf(),
        d.wf(),
        d.base == c.base,
        d.ours == c.theirs,
        d.theirs == c.ours,
        files::is_identity(c.base, c.ours, c.theirs, classes, c.rows),
        files::is_identity(d.base, d.ours, d.theirs, classes, d.rows),
    ensures
        is_exchanged(c, d),
        is_exchanged(d, c),
{
    let a = identity::additions_of(c.base, c.ours, c.theirs, classes);
    let e = identity::additions_of(d.base, d.ours, d.theirs, classes);
    identity::lemma_additions_wf(c.base, c.ours, c.theirs, classes);
    identity::lemma_additions_wf(d.base, d.ours, d.theirs, classes);
    assert(e == exchanged(a));
    assert(a == exchanged(e));
    lemma_rows_turned(c, d, a);
    lemma_rows_turned(d, c, e);
}

/// Different rows stay different.
pub proof fn lemma_across_injective(c: Ctx, d: Ctx, r: usize, s: usize)
    requires
        is_exchanged(c, d),
        r < c.rows.entries.len(),
        s < c.rows.entries.len(),
        across(c, d, r) == across(c, d, s),
    ensures
        r == s,
{
    assert(c.rows.entries[r as int] == c.rows.entries[s as int]) by {
        let (x, y) = (c.rows.entries[r as int], c.rows.entries[s as int]);
        assert(turned(x) == turned(y));
    }
    context::lemma_entry_wf(c, r as int);
}

/// Going across and back leads to the same row.
pub proof fn lemma_across_back(c: Ctx, d: Ctx, s: usize)
    requires
        is_exchanged(c, d),
        is_exchanged(d, c),
        s < d.rows.entries.len(),
    ensures
        across(d, c, s) < c.rows.entries.len(),
        across(c, d, across(d, c, s)) == s,
{
    let r = across(d, c, s);
    let x = d.rows.entries[s as int];
    assert(c.rows.entries[r as int] == turned(x));
    assert(d.rows.entries[across(c, d, r) as int] == turned(c.rows.entries[r as int]));
    assert(d.rows.entries[across(c, d, r) as int] == x);
    context::lemma_entry_wf(d, s as int);
}

// ---------------------------------------------------------------------------
// Values
// ---------------------------------------------------------------------------

/// The source that a source is once the sides are exchanged.
pub open spec fn turned_source(source: ValueSource) -> ValueSource {
    match source {
        ValueSource::Base => ValueSource::Base,
        ValueSource::Ours => ValueSource::Theirs,
        ValueSource::Theirs => ValueSource::Ours,
        ValueSource::Merged => ValueSource::Merged,
    }
}

/// The row of `d` that a row of `c` is, where there is one.
pub open spec fn across_option(c: Ctx, d: Ctx, r: Option<usize>) -> Option<usize> {
    match r {
        Some(r) => Some(across(c, d, r)),
        None => None,
    }
}

/// The rows of the instances of a file.
pub proof fn lemma_row_of(c: Ctx, d: Ctx, source: ValueSource, i: usize)
    requires
        is_exchanged(c, d),
    ensures
        identity::row_of(d.rows, turned_source(source), i) == across_option(
            c,
            d,
            identity::row_of(c.rows, source, i),
        ),
        identity::row_of(c.rows, source, i) matches Some(r) ==> r < c.rows.entries.len(),
{
    match source {
        ValueSource::Base => {
            if i < c.base.len() {
                assert(c.rows.entries[i as int].base == Some(i as int as usize));
            }
        },
        ValueSource::Ours => {
            if i < c.ours.len() {
                let r = c.rows.ours_rows[i as int] as int;
                assert(c.rows.entries[r].ours == Some(i as int as usize));
                assert(d.rows.entries[across(c, d, r as usize) as int] == turned(
                    c.rows.entries[r],
                ));
            }
        },
        ValueSource::Theirs => {
            if i < c.theirs.len() {
                let r = c.rows.theirs_rows[i as int] as int;
                assert(c.rows.entries[r].theirs == Some(i as int as usize));
                assert(d.rows.entries[across(c, d, r as usize) as int] == turned(
                    c.rows.entries[r],
                ));
            }
        },
        ValueSource::Merged => {},
    }
}

pub proof fn lemma_target(c: Ctx, d: Ctx, source: ValueSource, x: u128)
    requires
        is_exchanged(c, d),
    ensures
        d.target(turned_source(source), x) == across_option(c, d, c.target(source, x)),
        c.target(source, x) matches Some(r) ==> r < c.rows.entries.len(),
{
    if x != 0 {
        if let Some(file) = c.file(source) {
            if let Some(i) = semantic::node_of_ref(file, x) {
                lemma_row_of(c, d, source, i);
            }
        }
    }
}

proof fn lemma_ref_equal(c: Ctx, d: Ctx, x: u128, s: ValueSource, y: u128, t: ValueSource)
    requires
        is_exchanged(c, d),
    ensures
        d.ref_equal(x, turned_source(s), y, turned_source(t)) == c.ref_equal(x, s, y, t),
{
    lemma_target(c, d, s, x);
    lemma_target(c, d, t, y);
    if let (Some(p), Some(q)) = (c.target(s, x), c.target(t, y)) {
        if across(c, d, p) == across(c, d, q) {
            lemma_across_injective(c, d, p, q);
        }
    }
}

/// Values are the same values once the sides are exchanged.
pub proof fn lemma_value_equal(
    c: Ctx,
    d: Ctx,
    a: ValueModel,
    s: ValueSource,
    b: ValueModel,
    t: ValueSource,
)
    requires
        is_exchanged(c, d),
    ensures
        d.value_equal(a, turned_source(s), b, turned_source(t)) == c.value_equal(a, s, b, t),
    decreases a,
{
    match (a, b) {
        (ValueModel::Ref(x), ValueModel::Ref(y)) => {
            lemma_ref_equal(c, d, x, s, y, t);
        },
        (ValueModel::Object(x), ValueModel::Object(y)) => {
            lemma_ref_equal(c, d, x, s, y, t);
        },
        (ValueModel::Attributes(x), ValueModel::Attributes(y)) => {
            if x.len() == y.len() {
                assert forall|i: int| 0 <= i < x.len() implies d.value_equal(
                    (#[trigger] x[i]).1,
                    turned_source(s),
                    y[i].1,
                    turned_source(t),
                ) == c.value_equal(x[i].1, s, y[i].1, t) by {
                    lemma_value_equal(c, d, x[i].1, s, y[i].1, t);
                }
            }
        },
        _ => {},
    }
}

/// Being the same value goes both ways.
pub proof fn lemma_value_equal_symmetric(
    c: Ctx,
    a: ValueModel,
    s: ValueSource,
    b: ValueModel,
    t: ValueSource,
)
    ensures
        c.value_equal(a, s, b, t) == c.value_equal(b, t, a, s),
    decreases a,
{
    if let (ValueModel::Attributes(x), ValueModel::Attributes(y)) = (a, b) {
        if x.len() == y.len() {
            assert forall|i: int| 0 <= i < x.len() implies c.value_equal(
                (#[trigger] x[i]).1,
                s,
                y[i].1,
                t,
            ) == c.value_equal(y[i].1, t, x[i].1, s) by {
                lemma_value_equal_symmetric(c, x[i].1, s, y[i].1, t);
            }
            if c.value_equal(a, s, b, t) {
                assert forall|i: int| 0 <= i < y.len() implies (#[trigger] y[i]).0 == x[i].0
                    && c.value_equal(y[i].1, t, x[i].1, s) by {
                    assert(x[i].0 == y[i].0);
                }
            }
            if c.value_equal(b, t, a, s) {
                assert forall|i: int| 0 <= i < x.len() implies (#[trigger] x[i]).0 == y[i].0
                    && c.value_equal(x[i].1, s, y[i].1, t) by {
                    assert(y[i].0 == x[i].0);
                }
            }
        }
    }
}

pub proof fn lemma_option_equal(
    c: Ctx,
    d: Ctx,
    a: Option<ValueModel>,
    s: ValueSource,
    b: Option<ValueModel>,
    t: ValueSource,
)
    requires
        is_exchanged(c, d),
    ensures
        d.option_equal(a, turned_source(s), b, turned_source(t)) == c.option_equal(a, s, b, t),
        c.option_equal(a, s, b, t) == c.option_equal(b, t, a, s),
{
    if let (Some(x), Some(y)) = (a, b) {
        lemma_value_equal(c, d, x, s, y, t);
        lemma_value_equal_symmetric(c, x, s, y, t);
    }
}

/// Values with the sides exchanged.
pub open spec fn turned_values<T>(values: Sides<T>) -> Sides<T> {
    Sides { base: values.base, ours: values.theirs, theirs: values.ours }
}

/// The side that a value is taken from once the sides are exchanged: the other one,
/// but ours again where both are the same.
pub proof fn lemma_winner(c: Ctx, d: Ctx, values: Values)
    requires
        is_exchanged(c, d),
    ensures
        match (properties::winner(c, values), properties::winner(d, turned_values(values))) {
            (None, None) => true,
            (Some(Side::Base), Some(Side::Base)) => true,
            (Some(Side::Ours), Some(Side::Theirs)) => true,
            (Some(Side::Theirs), Some(Side::Ours)) => true,
            (Some(Side::Ours), Some(Side::Ours)) => c.option_equal(
                values.ours,
                ValueSource::Ours,
                values.theirs,
                ValueSource::Theirs,
            ),
            _ => false,
        },
{
    lemma_option_equal(c, d, values.ours, ValueSource::Ours, values.base, ValueSource::Base);
    lemma_option_equal(c, d, values.theirs, ValueSource::Theirs, values.base, ValueSource::Base);
    lemma_option_equal(c, d, values.theirs, ValueSource::Theirs, values.ours, ValueSource::Ours);
}

// ---------------------------------------------------------------------------
// Merged values
// ---------------------------------------------------------------------------

/// Whether a list of lost referents treats the same reference alike, whichever side
/// it is read from.
pub open spec fn is_fair(c: Ctx, m: Map<u128, usize>) -> bool {
    forall|x: u128, y: u128| #[trigger]
        c.ref_equal(x, ValueSource::Ours, y, ValueSource::Theirs) ==> (m.contains_key(x)
            <==> m.contains_key(y))
}

/// Whether a property comes to the same: it is kept, deleted or in conflict in both
/// cases, and a reference in it dangles in both or in neither.
pub open spec fn same_effect(m: Map<u128, usize>, p: PropertyOutcome, q: PropertyOutcome) -> bool {
    match (p, q) {
        (PropertyOutcome::Keep(x), PropertyOutcome::Keep(y)) => references::dangles(m, x.value)
            == references::dangles(m, y.value),
        (PropertyOutcome::Delete, PropertyOutcome::Delete) => true,
        (PropertyOutcome::Conflict, PropertyOutcome::Conflict) => true,
        _ => false,
    }
}

/// The same value dangles on both sides or on neither.
pub proof fn lemma_equal_dangles(c: Ctx, m: Map<u128, usize>, v: ValueModel, u: ValueModel)
    requires
        is_fair(c, m),
        c.value_equal(v, ValueSource::Ours, u, ValueSource::Theirs),
    ensures
        references::dangles(m, v) == references::dangles(m, u),
{
    let (x, y) = (references::ref_targets(v), references::ref_targets(u));
    agreement_laws::lemma_equal_targets(c, v, ValueSource::Ours, u, ValueSource::Theirs);
    assert forall|i: int| 0 <= i < x.len() implies (m.contains_key(#[trigger] x[i])
        <==> m.contains_key(y[i])) by {
        assert(c.ref_equal(x[i], ValueSource::Ours, y[i], ValueSource::Theirs));
    }
    if references::dangles(m, v) {
        let i = choose|i: int| 0 <= i < x.len() && m.contains_key(#[trigger] x[i]);
        assert(m.contains_key(y[i]));
    }
    if references::dangles(m, u) {
        let i = choose|i: int| 0 <= i < y.len() && m.contains_key(#[trigger] y[i]);
        assert(m.contains_key(x[i]));
    }
}

/// One more entry of an attribute map.
proof fn lemma_push_dangles(m: Map<u128, usize>, list: Seq<(Text, ValueModel)>, key: Text, v: ValueModel)
    ensures
        references::dangles(m, ValueModel::Attributes(list.push((key, v)))) == (
        references::dangles(m, ValueModel::Attributes(list)) || references::dangles(m, v)),
{
    let more = list.push((key, v));
    assert(more.drop_last() =~= list);
    let (a, b) = (references::list_targets(list), references::ref_targets(v));
    let whole = references::list_targets(more);
    assert(whole == a + b);
    assert(references::ref_targets(ValueModel::Attributes(more)) == whole);
    assert(references::ref_targets(ValueModel::Attributes(list)) == a);
    if references::dangles(m, ValueModel::Attributes(more)) {
        let i = choose|i: int| 0 <= i < whole.len() && m.contains_key(#[trigger] whole[i]);
        if i < a.len() {
            assert(m.contains_key(a[i]));
        } else {
            assert(m.contains_key(b[i - a.len()]));
        }
    }
    if references::dangles(m, ValueModel::Attributes(list)) {
        let i = choose|i: int| 0 <= i < a.len() && m.contains_key(#[trigger] a[i]);
        assert(m.contains_key(whole[i]));
    }
    if references::dangles(m, v) {
        let i = choose|i: int| 0 <= i < b.len() && m.contains_key(#[trigger] b[i]);
        assert(m.contains_key(whole[a.len() + i]));
    }
}

/// What becomes of an entry of attribute maps.
pub open spec fn entry_of(ctx: Ctx, values: Values, key: Text) -> PropertyOutcome {
    properties::merged_value(ctx, properties::attributes_key(), properties::nested(values, key))
}

spec fn entry_dangles(ctx: Ctx, m: Map<u128, usize>, values: Values, key: Text) -> bool {
    entry_of(ctx, values, key) matches PropertyOutcome::Keep(p) && references::dangles(m, p.value)
}

/// Attribute maps are in conflict if an entry is, and dangle if an entry does.
proof fn lemma_merged_attributes(ctx: Ctx, m: Map<u128, usize>, keys: Seq<Text>, values: Values)
    requires
        properties::size(values) > 0,
    ensures
        ({
            let merged = properties::merged_attributes(ctx, keys, values);
            &&& merged is None <==> exists|i: int|
                0 <= i < keys.len() && entry_of(ctx, values, #[trigger] keys[i]) is Conflict
            &&& merged is Some ==> (references::dangles(m, ValueModel::Attributes(merged->0))
                <==> exists|i: int|
                0 <= i < keys.len() && entry_dangles(ctx, m, values, #[trigger] keys[i]))
        }),
    decreases keys.len(),
{
    let merged = properties::merged_attributes(ctx, keys, values);
    if keys.len() == 0 {
        assert(references::list_targets(Seq::empty()).len() == 0);
        assert(references::ref_targets(ValueModel::Attributes(Seq::empty())).len() == 0);
    } else {
        let rest = keys.drop_last();
        let before = properties::merged_attributes(ctx, rest, values);
        lemma_merged_attributes(ctx, m, rest, values);
        assert(keys[keys.len() - 1] == keys.last());
        assert forall|i: int| 0 <= i < rest.len() implies #[trigger] keys[i] == rest[i] by {}
        if before is None {
            let i = choose|i: int|
                0 <= i < rest.len() && entry_of(ctx, values, #[trigger] rest[i]) is Conflict;
            assert(entry_of(ctx, values, keys[i]) is Conflict);
        } else {
            assert forall|i: int| 0 <= i < rest.len() implies !(entry_of(
                ctx,
                values,
                #[trigger] keys[i],
            ) is Conflict) by {
                assert(keys[i] == rest[i]);
            }
            if let PropertyOutcome::Keep(p) = entry_of(ctx, values, keys.last()) {
                lemma_push_dangles(m, before->0, keys.last(), p.value);
            }
            if exists|i: int| 0 <= i < rest.len() && entry_dangles(ctx, m, values, #[trigger] rest[i]) {
                let i = choose|i: int|
                    0 <= i < rest.len() && entry_dangles(ctx, m, values, #[trigger] rest[i]);
                assert(entry_dangles(ctx, m, values, keys[i]));
            }
            if exists|i: int| 0 <= i < keys.len() && entry_dangles(ctx, m, values, #[trigger] keys[i]) {
                let i = choose|i: int|
                    0 <= i < keys.len() && entry_dangles(ctx, m, values, #[trigger] keys[i]);
                if i < rest.len() {
                    assert(entry_dangles(ctx, m, values, rest[i]));
                }
            }
        }
    }
}

/// The names of the entries, whichever side is called ours.
proof fn lemma_all_keys(values: Values, key: Text)
    ensures
        properties::all_attribute_keys(values).contains(key)
            <==> properties::all_attribute_keys(turned_values(values)).contains(key),
{
    let a = properties::attribute_keys(values.base);
    let b = properties::attribute_keys(values.ours);
    let c = properties::attribute_keys(values.theirs);
    keyed::lemma_key_union_contains(a, b, key);
    keyed::lemma_key_union_contains(keyed::key_union(a, b), c, key);
    keyed::lemma_key_union_contains(a, c, key);
    keyed::lemma_key_union_contains(keyed::key_union(a, c), b, key);
}

/// A value is merged to the same effect once the sides are exchanged.
pub proof fn lemma_merged_value(c: Ctx, d: Ctx, m: Map<u128, usize>, key: Text, values: Values)
    requires
        is_exchanged(c, d),
        is_fair(c, m),
        key != dom::unique_id_key(),
    ensures
        same_effect(
            m,
            properties::merged_value(c, key, values),
            properties::merged_value(d, key, turned_values(values)),
        ),
    decreases properties::size(values), 1int,
{
    if key == properties::attributes_key() && properties::attributes_apply(values) {
        assert(properties::size(values) > 0) by {
            lemma_heights(values.base);
            lemma_heights(values.ours);
            lemma_heights(values.theirs);
        }
        lemma_attribute_maps(c, d, m, values);
    } else {
        lemma_winner(c, d, values);
        if let (Some(v), Some(u)) = (values.ours, values.theirs) {
            if c.value_equal(v, ValueSource::Ours, u, ValueSource::Theirs) {
                lemma_equal_dangles(c, m, v, u);
            }
        }
    }
}

proof fn lemma_heights(v: Option<ValueModel>)
    ensures
        v is Some ==> properties::option_height(v) > 0,
{
}

proof fn lemma_attribute_maps(c: Ctx, d: Ctx, m: Map<u128, usize>, values: Values)
    requires
        is_exchanged(c, d),
        is_fair(c, m),
        properties::size(values) > 0,
        properties::attributes_apply(values),
    ensures
        same_effect(
            m,
            properties::merged_value(c, properties::attributes_key(), values),
            properties::merged_value(d, properties::attributes_key(), turned_values(values)),
        ),
    decreases properties::size(values), 0int,
{
    let turned = turned_values(values);
    let (x, y) = (
        properties::all_attribute_keys(values),
        properties::all_attribute_keys(turned),
    );
    assert(properties::size(turned) == properties::size(values));
    lemma_merged_attributes(c, m, x, values);
    lemma_merged_attributes(d, m, y, turned);
    assert forall|key: Text|
        same_effect(m, entry_of(c, values, key), #[trigger] entry_of(d, turned, key)) by {
        properties::lemma_nested_size(values, key);
        reveal_strlit("Attributes");
        reveal_strlit("UniqueId");
        assert(properties::attributes_key().len() != dom::unique_id_key().len());
        lemma_merged_value(
            c,
            d,
            m,
            properties::attributes_key(),
            properties::nested(values, key),
        );
        assert(turned_values(properties::nested(values, key)) == properties::nested(turned, key));
    }
    assert forall|i: int| 0 <= i < x.len() implies y.contains(#[trigger] x[i]) by {
        lemma_all_keys(values, x[i]);
        assert(x.contains(x[i]));
    }
    assert forall|i: int| 0 <= i < y.len() implies x.contains(#[trigger] y[i]) by {
        lemma_all_keys(values, y[i]);
        assert(y.contains(y[i]));
    }
    let (p, q) = (
        properties::merged_attributes(c, x, values),
        properties::merged_attributes(d, y, turned),
    );
    if p is None {
        let i = choose|i: int| 0 <= i < x.len() && entry_of(c, values, #[trigger] x[i]) is Conflict;
        let j = y.index_of(x[i]);
        assert(same_effect(m, entry_of(c, values, y[j]), entry_of(d, turned, y[j])));
    }
    if q is None {
        let i = choose|i: int| 0 <= i < y.len() && entry_of(d, turned, #[trigger] y[i]) is Conflict;
        let j = x.index_of(y[i]);
        assert(same_effect(m, entry_of(c, values, x[j]), entry_of(d, turned, x[j])));
    }
    if p is Some && q is Some {
        if references::dangles(m, ValueModel::Attributes(p->0)) {
            let i = choose|i: int|
                0 <= i < x.len() && entry_dangles(c, m, values, #[trigger] x[i]);
            let j = y.index_of(x[i]);
            assert(same_effect(m, entry_of(c, values, y[j]), entry_of(d, turned, y[j])));
            assert(entry_dangles(d, m, turned, y[j]));
        }
        if references::dangles(m, ValueModel::Attributes(q->0)) {
            let i = choose|i: int|
                0 <= i < y.len() && entry_dangles(d, m, turned, #[trigger] y[i]);
            let j = x.index_of(y[i]);
            assert(same_effect(m, entry_of(c, values, x[j]), entry_of(d, turned, x[j])));
            assert(entry_dangles(c, m, values, x[j]));
        }
    }
}

} // verus!
