//! Which instances share a row, and the remarks on the guesses among them.

use vstd::prelude::*;

use crate::addition_laws;
use crate::additions;
use crate::additions::Additions;
use crate::diagnostics::DiagnosticModel;
use crate::files;
use crate::format::FileFormat;
use crate::identity;
use crate::identity::MergeEntry;
use crate::lists;
use crate::match_laws;
use crate::matching;
use crate::matching::{Classes, Matching, PositionalModel, RenameModel};
use crate::notices;
use crate::notices::NoticeModel;
use crate::semantic;
use crate::semantic::DomModel;
use crate::text;
use crate::text::Text;

verus! {

// ---------------------------------------------------------------------------
// Rows
// ---------------------------------------------------------------------------

/// Whether three instances, or two or one of them, make a row.
pub open spec fn is_row(
    a: Additions,
    base: Option<usize>,
    ours: Option<usize>,
    theirs: Option<usize>,
) -> bool {
    identity::identity_rows(a).contains(MergeEntry { base, ours, theirs })
}

/// An instance of the base makes a row with what it is matched with on either side. An
/// addition makes a row with the addition of the other side that it is, or alone.
#[verifier::rlimit(50)]
pub proof fn law_rows_are_made_of_matches(a: Additions, i: int, o: usize, t: usize)
    requires
        a.wf(),
        a.base_to_ours.len() <= usize::MAX,
    ensures
        0 <= i < a.base_to_ours.len() ==> is_row(
            a,
            Some(i as usize),
            a.base_to_ours[i],
            a.base_to_theirs[i],
        ),
        t < a.theirs.len() && addition_laws::is_new(a.base_to_theirs, t) && a.partner(t as int)
            == Some(o) ==> is_row(a, None, Some(o), Some(t)),
        t < a.theirs.len() && addition_laws::is_new(a.base_to_theirs, t) && a.partner(t as int)
            is None ==> is_row(a, None, None, Some(t)),
        o < a.ours.len() && addition_laws::is_new(a.base_to_ours, o) && (forall|u: usize|
            u < a.theirs.len() && addition_laws::is_new(a.base_to_theirs, u) ==> #[trigger]
                a.partner(u as int) != Some(o)) ==> is_row(a, None, Some(o), None),
{
    let rows = identity::identity_rows(a);
    let n = a.base_to_ours.len() as int;
    let mo = identity::marked(a.new_ours(), a.ours.len() as int);
    let mt = identity::marked(identity::lone_theirs(a), a.theirs.len() as int);
    identity::lemma_row(a, 0);
    identity::lemma_marked(a.new_ours(), a.ours.len() as int);
    identity::lemma_marked(identity::lone_theirs(a), a.theirs.len() as int);
    addition_laws::lemma_new(a.base_to_ours, o);
    addition_laws::lemma_new(a.base_to_theirs, t);
    if 0 <= i < n {
        identity::lemma_row(a, i);
        assert(rows[i] == (MergeEntry {
            base: Some(i as usize),
            ours: a.base_to_ours[i],
            theirs: a.base_to_theirs[i],
        }));
    }
    if t < a.theirs.len() && addition_laws::is_new(a.base_to_theirs, t) {
        if a.partner(t as int) == Some(o) {
            additions::lemma_added_partner(a, t as int);
            identity::lemma_theirs_of_partner(a, t as int);
            assert(a.new_ours()[o as int]);
            let k = mo.index_of(o);
            identity::lemma_row(a, n + k);
            assert(rows[n + k] == (MergeEntry { base: None, ours: Some(o), theirs: Some(t) }));
        }
        if a.partner(t as int) is None {
            assert(identity::lone_theirs(a)[t as int]);
            let k = mt.index_of(t);
            identity::lemma_row(a, n + mo.len() + k);
            assert(rows[n + mo.len() + k] == (MergeEntry {
                base: None,
                ours: None,
                theirs: Some(t),
            }));
        }
    }
    if o < a.ours.len() && addition_laws::is_new(a.base_to_ours, o) && (forall|u: usize|
        u < a.theirs.len() && addition_laws::is_new(a.base_to_theirs, u) ==> #[trigger] a.partner(
            u as int,
        ) != Some(o)) {
        assert(a.new_ours()[o as int]);
        if identity::theirs_of(a, o as int) is Some {
            let u = choose|u: int|
                0 <= u < a.theirs.len() && a.new_theirs()[u] && #[trigger] a.partner(u) == Some(
                    o as int as usize,
                );
            addition_laws::lemma_new(a.base_to_theirs, u as usize);
            assert(a.partner(u as usize as int) != Some(o));
        }
        let k = mo.index_of(o);
        identity::lemma_row(a, n + k);
        assert(rows[n + k] == (MergeEntry { base: None, ours: Some(o), theirs: None }));
    }
}

// ---------------------------------------------------------------------------
// Additions in doubt
// ---------------------------------------------------------------------------

proof fn lemma_ambiguity_remarked(theirs: DomModel, flags: Seq<bool>, n: int, t: int)
    requires
        0 <= t < n,
        flags[t],
    ensures
        exists|d: DiagnosticModel| #[trigger]
            identity::ambiguity_diagnostics(theirs, flags, n).contains(d) && d.code
                == "ambiguous_identity"@ && d.severity is Warning && d.path == Some(
                semantic::dom_path(theirs, t),
            ),
    decreases n,
{
    let so_far = identity::ambiguity_diagnostics(theirs, flags, n - 1);
    let all = identity::ambiguity_diagnostics(theirs, flags, n);
    if t == n - 1 {
        assert(all.contains(all[so_far.len() as int]));
    } else {
        lemma_ambiguity_remarked(theirs, flags, n - 1, t);
        let d = choose|d: DiagnosticModel| #[trigger]
            so_far.contains(d) && d.code == "ambiguous_identity"@ && d.severity is Warning
                && d.path == Some(semantic::dom_path(theirs, t));
        assert(all[so_far.index_of(d)] == d);
        assert(all.contains(d));
    }
}

/// An addition of theirs that may be either of two of ours, by its class, its name and its
/// parent, where unique ids do not tell, is taken for neither and remarked on.
#[verifier::rlimit(50)]
pub proof fn law_addition_in_doubt_stays_alone(
    base: DomModel,
    ours: DomModel,
    theirs: DomModel,
    classes: Classes,
    p: usize,
    q: usize,
    o: usize,
    other: usize,
    t: usize,
)
    requires
        semantic::dom_wf(base),
        semantic::dom_wf(ours),
        semantic::dom_wf(theirs),
        ({
            let a = identity::additions_of(base, ours, theirs, classes);
            let (class, name) = (theirs[t as int].class, theirs[t as int].name);
            &&& p < theirs.len()
            &&& q < ours.len()
            &&& addition_laws::are_one(a, q, p)
            &&& addition_laws::is_added(theirs, a.base_to_theirs, p as int, class, name, t)
            &&& addition_laws::is_added(ours, a.base_to_ours, q as int, class, name, o)
            &&& addition_laws::is_added(ours, a.base_to_ours, q as int, class, name, other)
        }),
        o != other,
        semantic::node_unique_id(theirs[t as int]) is None,
        semantic::node_unique_id(ours[o as int]) is None,
        semantic::node_unique_id(ours[other as int]) is None,
    ensures
        identity::additions_of(base, ours, theirs, classes).partner(t as int) is None,
        exists|d: DiagnosticModel| #[trigger]
            identity::identity_diagnostics(base, ours, theirs, classes).contains(d) && d.code
                == "ambiguous_identity"@ && d.severity is Warning && d.path == Some(
                semantic::dom_path(theirs, t as int),
            ),
{
    let a = identity::additions_of(base, ours, theirs, classes);
    identity::lemma_additions_wf(base, ours, theirs, classes);
    lemma_in_doubt(a, p, q, o, other, t);
    let flags = identity::ambiguous_flags(a);
    lemma_ambiguity_remarked(theirs, flags, theirs.len() as int, t as int);
    let last = identity::ambiguity_diagnostics(theirs, flags, theirs.len() as int);
    let d = choose|d: DiagnosticModel| #[trigger]
        last.contains(d) && d.code == "ambiguous_identity"@ && d.severity is Warning && d.path
            == Some(semantic::dom_path(theirs, t as int));
    let all = identity::identity_diagnostics(base, ours, theirs, classes);
    let at = all.len() - last.len() + last.index_of(d);
    assert(all[at] == d);
    assert(all.contains(d));
}

proof fn lemma_in_doubt(a: Additions, p: usize, q: usize, o: usize, other: usize, t: usize)
    requires
        a.wf(),
        p < a.theirs.len(),
        q < a.ours.len(),
        addition_laws::are_one(a, q, p),
        a.theirs[p as int].children.contains(t),
        addition_laws::is_new(a.base_to_theirs, t),
        a.ours[q as int].children.contains(o),
        addition_laws::is_new(a.base_to_ours, o),
        a.ours[o as int].class == a.theirs[t as int].class,
        a.ours[o as int].name == a.theirs[t as int].name,
        a.ours[q as int].children.contains(other),
        addition_laws::is_new(a.base_to_ours, other),
        a.ours[other as int].class == a.theirs[t as int].class,
        a.ours[other as int].name == a.theirs[t as int].name,
        o != other,
        semantic::node_unique_id(a.theirs[t as int]) is None,
        semantic::node_unique_id(a.ours[o as int]) is None,
        semantic::node_unique_id(a.ours[other as int]) is None,
    ensures
        t < a.theirs.len(),
        a.partner(t as int) is None,
        a.ambiguous(t as int),
{
    matching::lemma_children(a.theirs, p as int);
    let k = a.theirs[p as int].children.index_of(t);
    assert(a.theirs[p as int].children[k] == t);
    addition_laws::lemma_parent_in_ours(a, t as int, p, q);
    addition_laws::lemma_new(a.base_to_theirs, t);
    lemma_candidate(a, q, o, t);
    lemma_candidate(a, q, other, t);
    let list = a.candidates(q as int, t);
    assert(list.len() >= 2) by {
        let (i, j) = (list.index_of(o), list.index_of(other));
        assert(list[i] == o && list[j] == other);
    }
    assert(a.by_id(t as int) is None);
    assert(a.partner(t as int) is None) by {
        reveal(Additions::partner);
    }
}

proof fn lemma_candidate(a: Additions, q: usize, o: usize, t: usize)
    requires
        a.wf(),
        q < a.ours.len(),
        a.ours[q as int].children.contains(o),
        addition_laws::is_new(a.base_to_ours, o),
        a.ours[o as int].class == a.theirs[t as int].class,
        a.ours[o as int].name == a.theirs[t as int].name,
        semantic::node_unique_id(a.ours[o as int]) is None,
    ensures
        a.candidates(q as int, t).contains(o),
{
    matching::lemma_children(a.ours, q as int);
    let k = a.ours[q as int].children.index_of(o);
    assert(a.ours[q as int].children[k] == o);
    addition_laws::lemma_new(a.base_to_ours, o);
    if a.taken_by_id(o as int) {
        let u = choose|u: int|
            0 <= u < a.theirs.len() && #[trigger] a.by_id(u) == Some(o as int as usize);
        matching::lemma_id_match_some(a.theirs, a.new_theirs(), u, a.ours, a.new_ours());
    }
    lists::lemma_filter_mem(a.ours[q as int].children, a.may_be_ours(t), o);
}

// ---------------------------------------------------------------------------
// New names
// ---------------------------------------------------------------------------

/// Whether a note speaks of an instance of the base by its class and its name.
spec fn is_true_note(base: DomModel, r: RenameModel) -> bool {
    r.class == base[r.base_id as int].class && r.from == base[r.base_id as int].name
}

proof fn lemma_insert_keeps(s: Seq<NoticeModel>, x: NoticeModel, y: NoticeModel)
    requires
        s.contains(y) || y == x,
    ensures
        notices::insert_notice(s, x).contains(y),
    decreases s.len(),
{
    let all = notices::insert_notice(s, x);
    if s.len() == 0 || !notices::notice_lt(x, s.last()) {
        if s.contains(y) {
            assert(all[s.index_of(y)] == y);
        } else {
            assert(all[s.len() as int] == y);
        }
    } else {
        let front = notices::insert_notice(s.drop_last(), x);
        if y == s.last() {
            assert(all[front.len() as int] == y);
        } else {
            if s.contains(y) {
                assert(s.drop_last()[s.index_of(y)] == y);
            }
            lemma_insert_keeps(s.drop_last(), x, y);
            assert(all[front.index_of(y)] == y);
        }
    }
}

proof fn lemma_noted(base: DomModel, s: Seq<RenameModel>, n: int, k: int)
    requires
        0 <= k < n <= s.len(),
        forall|x: int| 0 <= x < s.len() ==> is_true_note(base, #[trigger] s[x]),
    ensures
        identity::rename_notices(base, s, n).contains(identity::rename_notice(base, s[k])),
    decreases n,
{
    let so_far = identity::rename_notices(base, s, n - 1);
    let notice = identity::rename_notice(base, s[k]);
    if k == n - 1 && identity::renamed_before(s, n - 1) {
        let j = choose|j: int| 0 <= j < n - 1 && identity::same_rename(#[trigger] s[j], s[n - 1]);
        assert(is_true_note(base, s[j]) && is_true_note(base, s[k]));
        lemma_noted(base, s, n - 1, j);
    } else {
        if k < n - 1 {
            lemma_noted(base, s, n - 1, k);
        }
        if !identity::renamed_before(s, n - 1) {
            lemma_insert_keeps(so_far, identity::rename_notice(base, s[n - 1]), notice);
        }
    }
}

proof fn lemma_row_notes(b: DomModel, s: DomModel, fb: Seq<usize>, fs: Seq<usize>, n: int)
    requires
        0 <= n <= fb.len(),
    ensures
        forall|x: int|
            0 <= x < matching::rename_notes(b, s, fb, fs, n).len() ==> is_true_note(
                b,
                #[trigger] matching::rename_notes(b, s, fb, fs, n)[x],
            ),
        forall|k: int|
            0 <= k < n && matching::by_position(b, s, fb, fs, fb[k]) is None
                && #[trigger] matching::by_rename(b, s, fb, fs, fb[k]) is Some
                ==> matching::rename_notes(b, s, fb, fs, n).contains(
                RenameModel {
                    base_id: fb[k],
                    class: b[fb[k] as int].class,
                    from: b[fb[k] as int].name,
                    to: s[matching::by_rename(b, s, fb, fs, fb[k])->0 as int].name,
                },
            ),
    decreases n,
{
    if n > 0 {
        lemma_row_notes(b, s, fb, fs, n - 1);
        let so_far = matching::rename_notes(b, s, fb, fs, n - 1);
        let more = matching::rename_note(b, s, fb, fs, fb[n - 1]);
        let all = matching::rename_notes(b, s, fb, fs, n);
        assert forall|x: int| 0 <= x < all.len() implies is_true_note(b, #[trigger] all[x]) by {
            if x < so_far.len() {
                assert(all[x] == so_far[x]);
            } else {
                assert(all[x] == more[x - so_far.len()]);
            }
        }
        assert forall|k: int|
            0 <= k < n && matching::by_position(b, s, fb, fs, fb[k]) is None
                && #[trigger] matching::by_rename(b, s, fb, fs, fb[k]) is Some implies all.contains(
            RenameModel {
                base_id: fb[k],
                class: b[fb[k] as int].class,
                from: b[fb[k] as int].name,
                to: s[matching::by_rename(b, s, fb, fs, fb[k])->0 as int].name,
            },
        ) by {
            let y = matching::by_rename(b, s, fb, fs, fb[k])->0;
            let note = RenameModel {
                base_id: fb[k],
                class: b[fb[k] as int].class,
                from: b[fb[k] as int].name,
                to: s[y as int].name,
            };
            if k < n - 1 {
                assert(so_far.contains(note));
                assert(all[so_far.index_of(note)] == note);
            } else {
                assert(more[0] == note);
                assert(all[so_far.len() as int] == note);
            }
        }
    }
}

#[verifier::rlimit(50)]
proof fn lemma_all_notes(m: Matching, n: int, p: int, q: int, x: usize, y: usize)
    requires
        0 <= n <= m.base.len(),
        m.wf(),
    ensures
        forall|k: int|
            0 <= k < m.renames(n).len() ==> is_true_note(m.base, #[trigger] m.renames(n)[k]),
        0 <= p < n && m.partner(p) == Some(q as usize) && 0 <= q <= usize::MAX && m.free_base(
            p,
        ).contains(x) && matching::by_position(
            m.base,
            m.side,
            m.free_base(p),
            m.free_side(q),
            x,
        ) is None && matching::by_rename(m.base, m.side, m.free_base(p), m.free_side(q), x)
            == Some(y) ==> m.renames(n).contains(
            RenameModel {
                base_id: x,
                class: m.base[x as int].class,
                from: m.base[x as int].name,
                to: m.side[y as int].name,
            },
        ),
    decreases n,
{
    if n > 0 {
        lemma_all_notes(m, n - 1, p, q, x, y);
        let so_far = m.renames(n - 1);
        let all = m.renames(n);
        let note = RenameModel {
            base_id: x,
            class: m.base[x as int].class,
            from: m.base[x as int].name,
            to: m.side[y as int].name,
        };
        if so_far.contains(note) {
            assert(all[so_far.index_of(note)] == note);
        }
        if let Some(r) = m.partner(n - 1) {
            let (fb, fs) = (m.free_base(n - 1), m.free_side(r as int));
            let more = matching::rename_notes(m.base, m.side, fb, fs, fb.len() as int);
            lemma_row_notes(m.base, m.side, fb, fs, fb.len() as int);
            assert forall|k: int| 0 <= k < all.len() implies is_true_note(
                m.base,
                #[trigger] all[k],
            ) by {
                if k < so_far.len() {
                    assert(all[k] == so_far[k]);
                } else {
                    assert(all[k] == more[k - so_far.len()]);
                }
            }
            if p == n - 1 && q == r && fb.contains(x) && matching::by_position(
                m.base,
                m.side,
                fb,
                fs,
                x,
            ) is None && matching::by_rename(m.base, m.side, fb, fs, x) == Some(y) {
                let k = fb.index_of(x);
                assert(matching::by_rename(m.base, m.side, fb, fs, fb[k]) == Some(y));
                assert(more.contains(note));
                assert(all[so_far.len() + more.index_of(note)] == note);
            }
        }
    }
}

/// Whether a remark says that an instance was recognised under a new name: with its path in
/// the base, its class, and both names.
pub open spec fn is_rename_remark(
    base: DomModel,
    i: int,
    name: Text,
    d: DiagnosticModel,
) -> bool {
    &&& d.severity is Warning
    &&& d.code == "renamed_instance"@
    &&& d.path == Some(semantic::dom_path(base, i))
    &&& d.message == base[i].class + " "@ + text::quoted(base[i].name)
        + " was matched as a rename to "@ + text::quoted(name)
        + " by structural similarity; identity may be wrong if it was deleted and another added"@
}

proof fn lemma_rename_found(m: Matching, i: int, j: usize)
    requires
        m.wf(),
        0 < i < m.base.len(),
        m.partner(i) == Some(j),
        j < m.side.len(),
        m.base[i].name != m.side[j as int].name,
        semantic::node_unique_id(m.base[i]) is None,
        !(m.classes.contains_key(m.base[i].class) && m.classes[m.base[i].class].service),
    ensures
        m.renames(m.base.len() as int).contains(
            RenameModel {
                base_id: i as usize,
                class: m.base[i].class,
                from: m.base[i].name,
                to: m.side[j as int].name,
            },
        ),
{
    match_laws::lemma_not_first(m, i);
    matching::lemma_is_child(m.base, i);
    let p = m.base[i].parent->0 as int;
    matching::lemma_partner(m, p);
    let q = m.partner(p)->0 as int;
    let x = i as usize;
    let (fb, fs) = (m.free_base(p), m.free_side(q));
    lists::lemma_filter_mem(m.base[p].children, m.is_free_base(), x);
    if let Some(y) = matching::by_position(m.base, m.side, fb, fs, x) {
        let other = matching::group_of(m.side, fs, m.base[i].class, m.base[i].name);
        assert(other.contains(y));
        lists::lemma_filter_mem(
            fs,
            matching::of_class_and_name(m.side, m.base[i].class, m.base[i].name),
            y,
        );
    }
    lemma_all_notes(m, m.base.len() as int, p, q, x, j);
}

/// An instance that is matched with one of another name on a side, where no unique id and no
/// service says so, is remarked on.
#[verifier::rlimit(50)]
pub proof fn law_new_names_are_remarked_on(
    base: DomModel,
    ours: DomModel,
    theirs: DomModel,
    classes: Classes,
    i: int,
    j: usize,
    on_ours: bool,
)
    requires
        semantic::dom_wf(base),
        semantic::dom_wf(ours),
        semantic::dom_wf(theirs),
        0 < i < base.len(),
        semantic::node_unique_id(base[i]) is None,
        !(classes.contains_key(base[i].class) && classes[base[i].class].service),
        ({
            let side = if on_ours {
                ours
            } else {
                theirs
            };
            &&& identity::matching_of(base, side, classes).partner(i) == Some(j)
            &&& j < side.len()
            &&& base[i].name != side[j as int].name
        }),
    ensures
        exists|d: DiagnosticModel| #[trigger]
            identity::identity_diagnostics(base, ours, theirs, classes).contains(d)
                && is_rename_remark(
                base,
                i,
                if on_ours {
                    ours[j as int].name
                } else {
                    theirs[j as int].name
                },
                d,
            ),
{
    let n = base.len() as int;
    let mo = identity::matching_of(base, ours, classes);
    let mt = identity::matching_of(base, theirs, classes);
    let m = if on_ours {
        mo
    } else {
        mt
    };
    lemma_rename_found(m, i, j);
    lemma_all_notes(mo, n, 0, 0, 0, 0);
    lemma_all_notes(mt, n, 0, 0, 0, 0);
    let notes = mo.renames(n) + mt.renames(n);
    let note = RenameModel {
        base_id: i as usize,
        class: base[i].class,
        from: base[i].name,
        to: m.side[j as int].name,
    };
    let k = if on_ours {
        mo.renames(n).index_of(note)
    } else {
        mo.renames(n).len() + mt.renames(n).index_of(note)
    };
    assert(notes[k] == note);
    assert forall|x: int| 0 <= x < notes.len() implies is_true_note(base, #[trigger] notes[x]) by {
        if x < mo.renames(n).len() {
            assert(notes[x] == mo.renames(n)[x]);
        } else {
            assert(notes[x] == mt.renames(n)[x - mo.renames(n).len()]);
        }
    }
    lemma_noted(base, notes, notes.len() as int, k);
    let list = identity::rename_notices(base, notes, notes.len() as int);
    let notice = identity::rename_notice(base, note);
    lemma_between(base, ours, theirs, classes, list, list.index_of(notice));
}

/// The remarks on new names stand among the remarks.
proof fn lemma_between(
    base: DomModel,
    ours: DomModel,
    theirs: DomModel,
    classes: Classes,
    list: Seq<NoticeModel>,
    k: int,
)
    requires
        ({
            let n = base.len() as int;
            let notes = identity::matching_of(base, ours, classes).renames(n)
                + identity::matching_of(base, theirs, classes).renames(n);
            list == identity::rename_notices(base, notes, notes.len() as int)
        }),
        0 <= k < list.len(),
    ensures
        identity::identity_diagnostics(base, ours, theirs, classes).contains(list[k].diagnostic),
{
    let n = base.len() as int;
    let positional = identity::matching_of(base, ours, classes).positional(n)
        + identity::matching_of(base, theirs, classes).positional(n);
    let first = notices::notice_diagnostics(
        identity::positional_notices(base, positional, positional.len() as int),
    );
    let all = identity::identity_diagnostics(base, ours, theirs, classes);
    assert(notices::notice_diagnostics(list)[k] == list[k].diagnostic);
    assert(all[first.len() + k] == list[k].diagnostic);
}

// ---------------------------------------------------------------------------
// Namesakes
// ---------------------------------------------------------------------------

/// The children of an instance with a class and a name.
pub open spec fn namesakes(d: DomModel, p: int, class: Text, name: Text) -> Seq<usize> {
    d[p].children.filter(|x: usize| d[x as int].class == class && d[x as int].name == name)
}

proof fn lemma_filter_twice(
    list: Seq<usize>,
    p: spec_fn(usize) -> bool,
    q: spec_fn(usize) -> bool,
)
    requires
        forall|i: int| 0 <= i < list.len() && q(#[trigger] list[i]) ==> p(list[i]),
    ensures
        list.filter(p).filter(q) == list.filter(q),
    decreases list.len(),
{
    reveal(Seq::filter);
    if list.len() > 0 {
        let front = list.drop_last();
        assert forall|i: int| 0 <= i < front.len() && q(#[trigger] front[i]) implies p(
            front[i],
        ) by {
            assert(list[i] == front[i]);
        }
        lemma_filter_twice(front, p, q);
        let x = list[list.len() - 1];
        if p(x) {
            assert(list.filter(p) == front.filter(p).push(x));
            assert(list.filter(p).drop_last() =~= front.filter(p));
        }
    }
}

proof fn lemma_namesakes(m: Matching, p: int, q: int, class: Text, name: Text)
    requires
        m.wf(),
        0 <= p < m.base.len(),
        0 <= q < m.side.len(),
        match_laws::is_anonymous(m, p, q, class),
    ensures
        matching::group_of(m.base, m.free_base(p), class, name) == namesakes(
            m.base,
            p,
            class,
            name,
        ),
        matching::group_of(m.side, m.free_side(q), class, name) == namesakes(
            m.side,
            q,
            class,
            name,
        ),
{
    match_laws::lemma_free_children(m, p, q, class);
    let own = |x: usize| m.base[x as int].class == class && m.base[x as int].name == name;
    let other = |x: usize| m.side[x as int].class == class && m.side[x as int].name == name;
    assert(matching::of_class_and_name(m.base, class, name) =~= own);
    assert(matching::of_class_and_name(m.side, class, name) =~= other);
    let (a, b) = (m.base[p].children, m.side[q].children);
    assert forall|i: int| 0 <= i < a.len() && own(#[trigger] a[i]) implies m.is_free_base()(
        a[i],
    ) by {
        assert(match_laws::is_child_of_class(m.base, p, class, a[i]));
        lists::lemma_filter_mem(a, m.is_free_base(), a[i]);
    }
    assert forall|i: int| 0 <= i < b.len() && other(#[trigger] b[i]) implies m.is_free_side()(
        b[i],
    ) by {
        assert(match_laws::is_child_of_class(m.side, q, class, b[i]));
        lists::lemma_filter_mem(b, m.is_free_side(), b[i]);
    }
    lemma_filter_twice(a, m.is_free_base(), own);
    lemma_filter_twice(b, m.is_free_side(), other);
}

/// Whether a note counts the pairs of a group as they are under its parent.
spec fn counts_pairs(m: Matching, note: PositionalModel) -> bool {
    let p = note.base_parent as int;
    let q = m.partner(p)->0 as int;
    let own = matching::group_of(m.base, m.free_base(p), note.class, note.name);
    let other = matching::group_of(m.side, m.free_side(q), note.class, note.name);
    note.count == (if own.len() <= other.len() {
        own.len()
    } else {
        other.len()
    }) as usize
}

#[verifier::rlimit(50)]
proof fn lemma_group_notes(m: Matching, p: int, q: usize, n: int)
    requires
        0 <= p < m.base.len() <= usize::MAX,
        m.partner(p) == Some(q),
        0 <= n <= m.free_base(p).len(),
    ensures
        ({
            let fb = m.free_base(p);
            let notes = matching::positional_notes(
                m.base,
                m.side,
                fb,
                m.free_side(q as int),
                p as usize,
                n,
            );
            &&& forall|k: int| 0 <= k < notes.len() ==> counts_pairs(m, #[trigger] notes[k])
            &&& forall|k: int|
                0 <= k < n ==> forall|j: int|
                    0 <= j < matching::positional_note(
                        m.base,
                        m.side,
                        fb,
                        m.free_side(q as int),
                        p as usize,
                        #[trigger] fb[k],
                    ).len() ==> notes.contains(
                        #[trigger] matching::positional_note(
                            m.base,
                            m.side,
                            fb,
                            m.free_side(q as int),
                            p as usize,
                            fb[k],
                        )[j],
                    )
        }),
    decreases n,
{
    if n > 0 {
        lemma_group_notes(m, p, q, n - 1);
        let fb = m.free_base(p);
        let fs = m.free_side(q as int);
        let so_far = matching::positional_notes(m.base, m.side, fb, fs, p as usize, n - 1);
        let more = matching::positional_note(m.base, m.side, fb, fs, p as usize, fb[n - 1]);
        let notes = matching::positional_notes(m.base, m.side, fb, fs, p as usize, n);
        assert forall|k: int| 0 <= k < notes.len() implies counts_pairs(m, #[trigger] notes[k]) by {
            if k < so_far.len() {
                assert(notes[k] == so_far[k]);
            } else {
                assert(notes[k] == more[k - so_far.len()]);
            }
        }
        assert forall|k: int| 0 <= k < n implies forall|j: int|
            0 <= j < matching::positional_note(m.base, m.side, fb, fs, p as usize, #[trigger] fb[k]).len()
                ==> notes.contains(
                #[trigger] matching::positional_note(m.base, m.side, fb, fs, p as usize, fb[k])[j],
            ) by {
            let part = matching::positional_note(m.base, m.side, fb, fs, p as usize, fb[k]);
            assert forall|j: int| 0 <= j < part.len() implies notes.contains(#[trigger] part[j]) by {
                if k < n - 1 {
                    assert(so_far.contains(part[j]));
                    assert(notes[so_far.index_of(part[j])] == part[j]);
                } else {
                    assert(notes[so_far.len() + j] == part[j]);
                }
            }
        }
    }
}

proof fn lemma_positional(m: Matching, n: int, p: int, note: PositionalModel)
    requires
        0 <= n <= m.base.len() <= usize::MAX,
    ensures
        forall|k: int|
            0 <= k < m.positional(n).len() ==> counts_pairs(m, #[trigger] m.positional(n)[k]),
        0 <= p < n && m.partner(p) is Some && matching::positional_notes(
            m.base,
            m.side,
            m.free_base(p),
            m.free_side(m.partner(p)->0 as int),
            p as usize,
            m.free_base(p).len() as int,
        ).contains(note) ==> m.positional(n).contains(note),
    decreases n,
{
    if n > 0 {
        lemma_positional(m, n - 1, p, note);
        let so_far = m.positional(n - 1);
        let all = m.positional(n);
        if so_far.contains(note) {
            assert(all[so_far.index_of(note)] == note);
        }
        if let Some(q) = m.partner(n - 1) {
            let fb = m.free_base(n - 1);
            lemma_group_notes(m, n - 1, q, fb.len() as int);
            let more = matching::positional_notes(
                m.base,
                m.side,
                fb,
                m.free_side(q as int),
                (n - 1) as usize,
                fb.len() as int,
            );
            assert forall|k: int| 0 <= k < all.len() implies counts_pairs(m, #[trigger] all[k]) by {
                if k < so_far.len() {
                    assert(all[k] == so_far[k]);
                } else {
                    assert(all[k] == more[k - so_far.len()]);
                }
            }
            if p == n - 1 && more.contains(note) {
                assert(all[so_far.len() + more.index_of(note)] == note);
            }
        }
    }
}

proof fn lemma_first_noted(
    m: Matching,
    base: DomModel,
    s: Seq<PositionalModel>,
    n: int,
    k: int,
    own: int,
)
    requires
        0 <= k < n <= s.len(),
        k < own,
        forall|x: int| 0 <= x < own && x < s.len() ==> counts_pairs(m, #[trigger] s[x]),
    ensures
        identity::positional_notices(base, s, n).contains(identity::positional_notice(base, s[k])),
    decreases n,
{
    let so_far = identity::positional_notices(base, s, n - 1);
    let notice = identity::positional_notice(base, s[k]);
    if k == n - 1 && identity::noted_before(s, n - 1) {
        let j = choose|j: int| 0 <= j < n - 1 && identity::same_group(#[trigger] s[j], s[n - 1]);
        assert(counts_pairs(m, s[j]) && counts_pairs(m, s[k]));
        assert(s[j] =~= s[k]);
        lemma_first_noted(m, base, s, n - 1, j, own);
    } else {
        if k < n - 1 {
            lemma_first_noted(m, base, s, n - 1, k, own);
        }
        if !identity::noted_before(s, n - 1) {
            lemma_insert_keeps(so_far, identity::positional_notice(base, s[n - 1]), notice);
        }
    }
}

/// Where siblings of one class and one name, without unique ids, are more than one in the
/// base or in ours, and there are such in both, it is remarked on: under the path of their
/// parent, with how many pairs of them there are, their name and their class.
#[verifier::rlimit(50)]
pub proof fn law_namesakes_are_remarked_on(
    base: DomModel,
    ours: DomModel,
    theirs: DomModel,
    classes: Classes,
    p: int,
    q: usize,
    class: Text,
    name: Text,
)
    requires
        semantic::dom_wf(base),
        semantic::dom_wf(ours),
        semantic::dom_wf(theirs),
        0 <= p < base.len(),
        identity::matching_of(base, ours, classes).partner(p) == Some(q),
        q < ours.len(),
        match_laws::is_anonymous(
            identity::matching_of(base, ours, classes),
            p,
            q as int,
            class,
        ),
        namesakes(base, p, class, name).len() > 0,
        namesakes(ours, q as int, class, name).len() > 0,
        namesakes(base, p, class, name).len() > 1 || namesakes(ours, q as int, class, name).len()
            > 1,
        namesakes(base, p, class, name).len() <= usize::MAX,
    ensures
        exists|d: DiagnosticModel| #[trigger]
            identity::identity_diagnostics(base, ours, theirs, classes).contains(d) && {
                let (x, y) = (
                    namesakes(base, p, class, name).len(),
                    namesakes(ours, q as int, class, name).len(),
                );
                &&& d.severity is Warning
                &&& d.code == "positional_identity"@
                &&& d.path == Some(semantic::dom_path(base, p))
                &&& d.message == text::decimal(
                    if x <= y {
                        x as int
                    } else {
                        y as int
                    },
                ) + " same-named "@ + text::quoted(name) + " ("@ + class
                    + ") children without UniqueId were matched by position; identity may be wrong if siblings were reordered"@
            },
{
    let m = identity::matching_of(base, ours, classes);
    let n = base.len() as int;
    lemma_namesakes(m, p, q as int, class, name);
    let (fb, fs) = (m.free_base(p), m.free_side(q as int));
    let own = namesakes(base, p, class, name);
    let other = namesakes(ours, q as int, class, name);
    let c = own[0];
    assert(own.contains(c));
    lists::lemma_filter_mem(fb, matching::of_class_and_name(base, class, name), c);
    let k = fb.index_of(c);
    let note = PositionalModel {
        base_parent: p as usize,
        class,
        name,
        count: (if own.len() <= other.len() {
            own.len()
        } else {
            other.len()
        }) as usize,
    };
    lemma_group_notes(m, p, q, fb.len() as int);
    let part = matching::positional_note(base, ours, fb, fs, p as usize, fb[k]);
    assert(part[0] == note);
    lemma_positional(m, n, p, note);
    let first = m.positional(n);
    let notes = first + identity::matching_of(base, theirs, classes).positional(n);
    let at = first.index_of(note);
    assert(notes[at] == note);
    assert forall|x: int| 0 <= x < first.len() && x < notes.len() implies counts_pairs(
        m,
        #[trigger] notes[x],
    ) by {
        assert(notes[x] == first[x]);
    }
    lemma_first_noted(m, base, notes, notes.len() as int, at, first.len() as int);
    let list = identity::positional_notices(base, notes, notes.len() as int);
    let notice = identity::positional_notice(base, note);
    let i = list.index_of(notice);
    let all = identity::identity_diagnostics(base, ours, theirs, classes);
    assert(notices::notice_diagnostics(list)[i] == notice.diagnostic);
    assert(all[i] == notice.diagnostic);
    assert(all.contains(notice.diagnostic));
}

/// Notices are put in order by their paths; of one path by what stands second, and then by
/// what stands third. One that is like another stays behind it.
pub proof fn law_notices_are_ordered_by_path(a: NoticeModel, b: NoticeModel)
    ensures
        ({
            let order = notices::insert_notice(seq![a], b);
            let swapped = seq![b, a];
            let kept = seq![a, b];
            &&& text::text_lt(b.first, a.first) ==> order == swapped
            &&& text::text_lt(a.first, b.first) ==> order == kept
            &&& a.first == b.first && text::text_lt(b.second, a.second) ==> order == swapped
            &&& a.first == b.first && text::text_lt(a.second, b.second) ==> order == kept
            &&& a.first == b.first && a.second == b.second && text::text_lt(b.third, a.third)
                ==> order == swapped
            &&& a.first == b.first && a.second == b.second && text::text_lt(a.third, b.third)
                ==> order == kept
            &&& a.first == b.first && a.second == b.second && a.third == b.third ==> order == kept
        }),
{
    reveal_with_fuel(notices::insert_notice, 3);
    text::lemma_text_lt_irreflexive(a.first);
    text::lemma_text_lt_irreflexive(a.second);
    text::lemma_text_lt_irreflexive(a.third);
    if text::text_lt(a.first, b.first) {
        text::lemma_text_lt_asymmetric(a.first, b.first);
    }
    if text::text_lt(b.first, a.first) {
        text::lemma_text_lt_asymmetric(b.first, a.first);
    }
    if text::text_lt(a.second, b.second) {
        text::lemma_text_lt_asymmetric(a.second, b.second);
    }
    if text::text_lt(b.second, a.second) {
        text::lemma_text_lt_asymmetric(b.second, a.second);
    }
    if text::text_lt(a.third, b.third) {
        text::lemma_text_lt_asymmetric(a.third, b.third);
    }
    let order = notices::insert_notice(seq![a], b);
    assert(seq![a].last() == a);
    assert(seq![a].drop_last() =~= Seq::empty());
    assert(seq![a].push(b) =~= seq![a, b]);
    assert(Seq::<NoticeModel>::empty().push(b).push(a) =~= seq![b, a]);
}

// ---------------------------------------------------------------------------
// The output
// ---------------------------------------------------------------------------

/// The merged file is in the format asked for; else in that given for ours; else in that of
/// the path of ours, where its extension tells one; else in that ours was read in.
pub proof fn law_output_format_precedence(
    path: Option<Text>,
    output: Option<FileFormat>,
    ours: Option<FileFormat>,
    detected: FileFormat,
)
    ensures
        ({
            let f = files::output_format_of(path, output, ours, detected);
            &&& output is Some ==> f == output->0
            &&& output is None && ours is Some ==> f == ours->0
            &&& output is None && ours is None && path is Some && crate::format::extension_format(
                crate::format::extension(path->0),
            ) is Some ==> Some(f) == crate::format::extension_format(
                crate::format::extension(path->0),
            )
            &&& output is None && ours is None && (path is None || crate::format::extension_format(
                crate::format::extension(path->0),
            ) is None) ==> f == detected
        }),
{
}

} // verus!
