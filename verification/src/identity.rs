//! Rows of instances that are one instance: at most one of each side.

use indexmap::IndexMap;
use rbx_reflection::ReflectionDatabase;
use vstd::prelude::*;

use crate::additions;
use crate::additions::{match_additions, AddedMatches, Additions};
use crate::diagnostics;
use crate::diagnostics::{
    ambiguous_identity_diagnostic, positional_identity_diagnostic, renamed_instance_diagnostic,
    Diagnostic, DiagnosticModel,
};
use crate::dom;
use crate::matching;
use crate::matching::{
    match_base_to_side, Classes, Matching, PositionalMatch, PositionalModel, RenameMatch,
    RenameModel, SideMatch,
};
use crate::notices;
use crate::notices::{add_notice, report_notices, Notice, NoticeModel};
use crate::semantic;
use crate::semantic::{DomModel, SemanticDom, ValueSource};
use crate::text::same_text;

verus! {

/// One instance of the merge: its instances on the three sides.
#[derive(Debug, Clone, Copy, PartialEq, Eq, Structural)]
pub struct MergeEntry {
    pub base: Option<usize>,
    pub ours: Option<usize>,
    pub theirs: Option<usize>,
}

/// The rows, and the row of every instance. The instances of the base are the
/// first rows, in order.
pub struct IdentitySet {
    pub entries: IndexMap<usize, MergeEntry>,
    pub base_count: usize,
    pub ours_rows: Vec<usize>,
    pub theirs_rows: Vec<usize>,
}

/// What a map of rows holds.
pub uninterp spec fn identity_entries(entries: IndexMap<usize, MergeEntry>) -> Map<
    usize,
    MergeEntry,
>;

/// A map of no rows.
///
/// Trusted: `IndexMap::new` holds nothing.
#[verifier::external_body]
fn no_entries() -> (res: IndexMap<usize, MergeEntry>)
    ensures
        identity_entries(res).dom() == Set::<usize>::empty(),
{
    IndexMap::new()
}

/// Adds a row, or replaces it.
///
/// Trusted: `IndexMap::insert` leaves every other entry as it is.
#[verifier::external_body]
fn put_entry(entries: &mut IndexMap<usize, MergeEntry>, row: usize, entry: MergeEntry)
    ensures
        identity_entries(*final(entries)) == identity_entries(*old(entries)).insert(row, entry),
{
    entries.insert(row, entry);
}

/// Finds a row.
///
/// Trusted: `IndexMap::get` finds the entry of the key.
#[verifier::external_body]
fn find_entry(entries: &IndexMap<usize, MergeEntry>, row: usize) -> (res: Option<&MergeEntry>)
    ensures
        match res {
            Some(entry) => identity_entries(*entries).contains_key(row) && identity_entries(
                *entries,
            )[row] == *entry,
            None => !identity_entries(*entries).contains_key(row),
        },
{
    entries.get(&row)
}

/// How many rows there are.
///
/// Trusted: `IndexMap::len` counts the entries.
#[verifier::external_body]
fn count_entries(entries: &IndexMap<usize, MergeEntry>) -> (res: usize)
    ensures
        res == identity_entries(*entries).dom().len(),
{
    entries.len()
}

/// Whether the rows are the numbers up to how many there are.
pub open spec fn is_numbered(entries: Map<usize, MergeEntry>) -> bool {
    &&& entries.dom().finite()
    &&& forall|r: usize| #[trigger] entries.contains_key(r) <==> r < entries.dom().len()
}

/// The rows in their order, where they are numbered.
pub open spec fn entries_view(entries: Map<usize, MergeEntry>) -> Seq<MergeEntry> {
    if is_numbered(entries) {
        Seq::new(entries.dom().len(), |r: int| entries[r as usize])
    } else {
        Seq::empty()
    }
}

/// A row with the next number is the last.
proof fn lemma_put_next(entries: Map<usize, MergeEntry>, row: usize, entry: MergeEntry)
    requires
        is_numbered(entries),
        row == entries.dom().len(),
    ensures
        is_numbered(entries.insert(row, entry)),
        entries_view(entries.insert(row, entry)) == entries_view(entries).push(entry),
{
    let more = entries.insert(row, entry);
    assert(!entries.contains_key(row));
    assert(more.dom() =~= entries.dom().insert(row));
    assert(entries_view(more) =~= entries_view(entries).push(entry));
}

/// The mathematical counterpart of [`IdentitySet`].
#[verifier::ext_equal]
pub ghost struct IdentityModel {
    pub entries: Seq<MergeEntry>,
    pub base_count: int,
    pub ours_rows: Seq<usize>,
    pub theirs_rows: Seq<usize>,
}

impl View for IdentitySet {
    type V = IdentityModel;

    open spec fn view(&self) -> IdentityModel {
        IdentityModel {
            entries: entries_view(identity_entries(self.entries)),
            base_count: self.base_count as int,
            ours_rows: self.ours_rows@,
            theirs_rows: self.theirs_rows@,
        }
    }
}

/// The row of an instance of a side.
pub open spec fn row_of(id: IdentityModel, source: ValueSource, node: usize) -> Option<usize> {
    match source {
        ValueSource::Base => if node < id.base_count {
            Some(node)
        } else {
            None
        },
        ValueSource::Ours => if node < id.ours_rows.len() {
            Some(id.ours_rows[node as int])
        } else {
            None
        },
        ValueSource::Theirs => if node < id.theirs_rows.len() {
            Some(id.theirs_rows[node as int])
        } else {
            None
        },
        ValueSource::Merged => None,
    }
}

/// The invariant: every instance of every side is in one row and in no other,
/// every row has an instance, and the roots share the first row.
pub open spec fn identity_wf(
    id: IdentityModel,
    base: DomModel,
    ours: DomModel,
    theirs: DomModel,
) -> bool {
    &&& id.entries.len() <= usize::MAX
    &&& id.base_count == base.len()
    &&& id.ours_rows.len() == ours.len()
    &&& id.theirs_rows.len() == theirs.len()
    &&& base.len() <= id.entries.len()
    &&& forall|r: int|
        0 <= r < id.entries.len() ==> (#[trigger] id.entries[r]).base == (if r < base.len() {
            Some(r as usize)
        } else {
            None
        })
    &&& forall|r: int|
        0 <= r < id.entries.len() ==> ((#[trigger] id.entries[r]).ours matches Some(o) ==> o
            < ours.len() && id.ours_rows[o as int] == r)
    &&& forall|r: int|
        0 <= r < id.entries.len() ==> ((#[trigger] id.entries[r]).theirs matches Some(t) ==> t
            < theirs.len() && id.theirs_rows[t as int] == r)
    &&& forall|o: int|
        0 <= o < ours.len() ==> (#[trigger] id.ours_rows[o]) < id.entries.len()
            && id.entries[id.ours_rows[o] as int].ours == Some(o as usize)
    &&& forall|t: int|
        0 <= t < theirs.len() ==> (#[trigger] id.theirs_rows[t]) < id.entries.len()
            && id.entries[id.theirs_rows[t] as int].theirs == Some(t as usize)
    &&& forall|r: int|
        0 <= r < id.entries.len() ==> (#[trigger] id.entries[r]).base is Some
            || id.entries[r].ours is Some || id.entries[r].theirs is Some
    &&& base.len() > 0
    &&& id.entries[0] == (MergeEntry {
        base: Some(0usize),
        ours: Some(0usize),
        theirs: Some(0usize),
    })
}

/// The ids below `n` that are marked.
pub open spec fn marked(flags: Seq<bool>, n: int) -> Seq<usize>
    decreases n,
{
    if n <= 0 {
        Seq::empty()
    } else if flags[n - 1] {
        marked(flags, n - 1).push((n - 1) as usize)
    } else {
        marked(flags, n - 1)
    }
}

/// The addition of theirs that is an addition of ours.
pub open spec fn theirs_of(a: Additions, o: int) -> Option<usize> {
    if exists|t: int|
        0 <= t < a.theirs.len() && a.new_theirs()[t] && #[trigger] a.partner(t) == Some(o as usize) {
        Some(
            (choose|t: int|
                0 <= t < a.theirs.len() && a.new_theirs()[t] && #[trigger] a.partner(t) == Some(
                    o as usize,
                )) as usize,
        )
    } else {
        None
    }
}

/// The additions of theirs that are no additions of ours.
pub open spec fn lone_theirs(a: Additions) -> Seq<bool> {
    Seq::new(a.theirs.len(), |t: int| a.new_theirs()[t] && a.partner(t) is None)
}

/// The rows: those of the base, then those of the additions of ours, then those
/// of the further additions of theirs, each in document order.
pub open spec fn identity_rows(a: Additions) -> Seq<MergeEntry> {
    let base = Seq::new(
        a.base_to_ours.len(),
        |i: int|
            MergeEntry {
                base: Some(i as usize),
                ours: a.base_to_ours[i],
                theirs: a.base_to_theirs[i],
            },
    );
    base + ours_rows_upto(a, a.ours.len() as int) + theirs_rows_upto(a, a.theirs.len() as int)
}

pub open spec fn ours_rows_upto(a: Additions, n: int) -> Seq<MergeEntry> {
    marked(a.new_ours(), n).map_values(
        |o: usize| MergeEntry { base: None, ours: Some(o), theirs: theirs_of(a, o as int) },
    )
}

pub open spec fn theirs_rows_upto(a: Additions, n: int) -> Seq<MergeEntry> {
    marked(lone_theirs(a), n).map_values(
        |t: usize| MergeEntry { base: None, ours: None, theirs: Some(t) },
    )
}

impl IdentitySet {
    /// How many rows there are.
    pub fn count(&self) -> (res: usize)
        requires
            self@.entries.len() > 0,
        ensures
            res == self@.entries.len(),
    {
        count_entries(&self.entries)
    }

    /// The instances of a row.
    pub fn entry(&self, row: usize) -> (res: MergeEntry)
        requires
            row < self@.entries.len(),
        ensures
            res == self@.entries[row as int],
    {
        assert(identity_entries(self.entries).contains_key(row));
        match find_entry(&self.entries, row) {
            Some(entry) => *entry,
            None => vstd::pervasive::unreached(),
        }
    }

    /// The row of an instance.
    pub fn lookup(&self, source: ValueSource, node: usize) -> (res: Option<usize>)
        ensures
            res == row_of(self@, source, node),
    {
        match source {
            ValueSource::Base => if node < self.base_count {
                Some(node)
            } else {
                None
            },
            ValueSource::Ours => if node < self.ours_rows.len() {
                Some(self.ours_rows[node])
            } else {
                None
            },
            ValueSource::Theirs => if node < self.theirs_rows.len() {
                Some(self.theirs_rows[node])
            } else {
                None
            },
            ValueSource::Merged => None,
        }
    }
}

pub proof fn lemma_marked(flags: Seq<bool>, n: int)
    requires
        0 <= n <= flags.len(),
        n <= usize::MAX,
    ensures
        crate::lists::increasing(marked(flags, n)),
        forall|k: int|
            0 <= k < marked(flags, n).len() ==> (#[trigger] marked(flags, n)[k]) < n
                && flags[marked(flags, n)[k] as int],
        forall|x: int| 0 <= x < n && #[trigger] flags[x] ==> marked(flags, n).contains(x as usize),
        marked(flags, n).len() <= n,
    decreases n,
{
    if n > 0 {
        lemma_marked(flags, n - 1);
        let m = marked(flags, n - 1);
        let r = marked(flags, n);
        if flags[n - 1] {
            assert forall|i: int, j: int| 0 <= i < j < r.len() implies (#[trigger] r[i]) < (
            #[trigger] r[j]) by {
                if j < m.len() {
                    assert(m[i] < m[j]);
                } else {
                    assert(m[i] < n - 1);
                }
            }
            assert forall|k: int| 0 <= k < r.len() implies (#[trigger] r[k]) < n && flags[r[k] as int] by {
                if k < m.len() {
                    assert(m[k] < n - 1);
                }
            }
            assert forall|x: int| 0 <= x < n && #[trigger] flags[x] implies r.contains(x as usize) by {
                if x < n - 1 {
                    let k = m.index_of(x as usize);
                    assert(r[k] == x as usize);
                } else {
                    assert(r[m.len() as int] == x as usize);
                }
            }
        }
    }
}

proof fn lemma_theirs_of(a: Additions, o: int)
    requires
        a.wf(),
        theirs_of(a, o) is Some,
    ensures
        ({
            let t = theirs_of(a, o)->0;
            &&& t < a.theirs.len()
            &&& a.new_theirs()[t as int]
            &&& a.partner(t as int) == Some(o as usize)
        }),
{
}

pub proof fn lemma_theirs_of_partner(a: Additions, t: int)
    requires
        a.wf(),
        0 <= t < a.theirs.len(),
        a.new_theirs()[t],
        a.partner(t) is Some,
    ensures
        theirs_of(a, a.partner(t)->0 as int) == Some(t as usize),
{
    let o = a.partner(t)->0;
    assert(a.partner(t) == Some(o as int as usize));
    let u = theirs_of(a, o as int)->0;
    lemma_theirs_of(a, o as int);
    additions::lemma_added_injective(a, t, u as int);
}

/// Where a row stands: among those of the base, of ours or of theirs.
pub proof fn lemma_row(a: Additions, r: int)
    requires
        a.wf(),
        0 <= r < identity_rows(a).len(),
    ensures
        ({
            let n = a.base_to_ours.len();
            let mo = marked(a.new_ours(), a.ours.len() as int);
            let mt = marked(lone_theirs(a), a.theirs.len() as int);
            let row = identity_rows(a)[r];
            &&& identity_rows(a).len() == n + mo.len() + mt.len()
            &&& r < n ==> row == (MergeEntry {
                base: Some(r as usize),
                ours: a.base_to_ours[r],
                theirs: a.base_to_theirs[r],
            })
            &&& n <= r < n + mo.len() ==> row == (MergeEntry {
                base: None,
                ours: Some(mo[r - n]),
                theirs: theirs_of(a, mo[r - n] as int),
            })
            &&& n + mo.len() <= r ==> row == (MergeEntry {
                base: None,
                ours: None,
                theirs: Some(mt[r - n - mo.len()]),
            })
        }),
{
}

/// Two rows have no instance in common.
proof fn lemma_rows_distinct(a: Additions, r: int, s: int)
    requires
        a.wf(),
        0 <= r < s < identity_rows(a).len(),
    ensures
        identity_rows(a)[r].ours is Some ==> identity_rows(a)[r].ours != identity_rows(a)[s].ours,
        identity_rows(a)[r].theirs is Some ==> identity_rows(a)[r].theirs
            != identity_rows(a)[s].theirs,
{
    let n = a.base_to_ours.len() as int;
    let mo = marked(a.new_ours(), a.ours.len() as int);
    let mt = marked(lone_theirs(a), a.theirs.len() as int);
    lemma_row(a, r);
    lemma_row(a, s);
    lemma_marked(a.new_ours(), a.ours.len() as int);
    lemma_marked(lone_theirs(a), a.theirs.len() as int);
    let rows = identity_rows(a);
    if rows[r].ours is Some && rows[r].ours == rows[s].ours {
        let o = rows[r].ours->0;
        if r < n && s < n {
            assert(a.base_to_ours[r] == a.base_to_ours[s]);
        } else if r < n && s < n + mo.len() {
            assert(a.base_to_ours[r] == Some(o as int as usize));
            assert(additions::is_target(a.base_to_ours, o as int));
            assert(a.new_ours()[mo[s - n] as int]);
        } else if s < n + mo.len() {
            assert(mo[r - n] < mo[s - n]);
        }
    }
    if rows[r].theirs is Some && rows[r].theirs == rows[s].theirs {
        let t = rows[r].theirs->0;
        if r < n && s < n {
            assert(a.base_to_theirs[r] == a.base_to_theirs[s]);
        } else if r < n {
            assert(a.base_to_theirs[r] == Some(t as int as usize));
            assert(additions::is_target(a.base_to_theirs, t as int));
            if s < n + mo.len() {
                lemma_theirs_of(a, mo[s - n] as int);
            } else {
                assert(lone_theirs(a)[t as int]);
            }
        } else if r < n + mo.len() {
            lemma_theirs_of(a, mo[r - n] as int);
            if s < n + mo.len() {
                lemma_theirs_of(a, mo[s - n] as int);
                assert(mo[r - n] < mo[s - n]);
            } else {
                assert(lone_theirs(a)[t as int]);
            }
        } else {
            assert(mt[r - n - mo.len()] < mt[s - n - mo.len()]);
        }
    }
}

/// Every instance of ours is in a row.
proof fn lemma_ours_complete(a: Additions, o: int) -> (r: int)
    requires
        a.wf(),
        0 <= o < a.ours.len(),
    ensures
        0 <= r < identity_rows(a).len(),
        identity_rows(a)[r].ours == Some(o as usize),
{
    let n = a.base_to_ours.len() as int;
    let mo = marked(a.new_ours(), a.ours.len() as int);
    if additions::is_target(a.base_to_ours, o) {
        let r = additions::source_of(a.base_to_ours, o);
        additions::lemma_is_target(a.base_to_ours, o);
        lemma_row(a, r);
        r
    } else {
        lemma_marked(a.new_ours(), a.ours.len() as int);
        assert(a.new_ours()[o]);
        let k = mo.index_of(o as usize);
        assert(mo[k] == o as usize);
        assert(identity_rows(a).len() >= n + mo.len());
        lemma_row(a, n + k);
        n + k
    }
}

/// Every instance of theirs is in a row.
proof fn lemma_theirs_complete(a: Additions, t: int) -> (r: int)
    requires
        a.wf(),
        0 <= t < a.theirs.len(),
    ensures
        0 <= r < identity_rows(a).len(),
        identity_rows(a)[r].theirs == Some(t as usize),
{
    let n = a.base_to_ours.len() as int;
    let mo = marked(a.new_ours(), a.ours.len() as int);
    let mt = marked(lone_theirs(a), a.theirs.len() as int);
    lemma_marked(a.new_ours(), a.ours.len() as int);
    lemma_marked(lone_theirs(a), a.theirs.len() as int);
    if additions::is_target(a.base_to_theirs, t) {
        let r = additions::source_of(a.base_to_theirs, t);
        additions::lemma_is_target(a.base_to_theirs, t);
        lemma_row(a, r);
        r
    } else if a.partner(t) is Some {
        assert(a.new_theirs()[t]);
        let o = a.partner(t)->0;
        additions::lemma_added_partner(a, t);
        lemma_theirs_of_partner(a, t);
        assert(a.new_ours()[o as int]);
        let k = mo.index_of(o as int as usize);
        assert(mo[k] == o);
        assert(identity_rows(a).len() >= n + mo.len());
        lemma_row(a, n + k);
        n + k
    } else {
        assert(lone_theirs(a)[t]);
        let k = mt.index_of(t as usize);
        assert(mt[k] == t as usize);
        assert(identity_rows(a).len() == n + mo.len() + mt.len());
        lemma_row(a, n + mo.len() + k);
        n + mo.len() + k
    }
}

/// Whether addition `t` of theirs is addition `o` of ours.
spec fn is_pair(a: Additions, t: int, o: int) -> bool {
    a.new_theirs()[t] && a.partner(t) == Some(o as usize)
}

/// What is known of the partner of `o` once the first `t` instances of theirs
/// were looked at.
spec fn theirs_among(a: Additions, o: int, t: int) -> Option<usize> {
    if theirs_of(a, o) is Some && theirs_of(a, o)->0 < t {
        theirs_of(a, o)
    } else {
        None
    }
}

proof fn lemma_theirs_among(a: Additions, o: int, t: int)
    requires
        a.wf(),
        0 <= t < a.theirs.len(),
        0 <= o < a.ours.len(),
    ensures
        theirs_among(a, o, t + 1) == (if is_pair(a, t, o) {
            Some(t as usize)
        } else {
            theirs_among(a, o, t)
        }),
{
    if is_pair(a, t, o) {
        lemma_theirs_of_partner(a, t);
    } else if theirs_of(a, o) is Some {
        lemma_theirs_of(a, o);
    }
}

/// Notes down the additions of theirs that are additions of ours.
fn pair_up(added: &AddedMatches, ours_count: usize, Ghost(a): Ghost<Additions>) -> (res: Vec<
    Option<usize>,
>)
    requires
        a.wf(),
        ours_count == a.ours.len(),
        added.new_theirs@ == a.new_theirs(),
        added.partners.len() == a.theirs.len(),
        forall|t: int|
            0 <= t < a.theirs.len() && a.new_theirs()[t] ==> #[trigger] added.partners@[t]
                == a.partner(t),
    ensures
        res.len() == ours_count,
        forall|o: int| 0 <= o < ours_count ==> #[trigger] res@[o] == theirs_of(a, o),
{
    let mut res: Vec<Option<usize>> = Vec::new();
    let mut o: usize = 0;
    while o < ours_count
        invariant
            o <= ours_count,
            res.len() == o,
            forall|k: int| 0 <= k < o ==> #[trigger] res@[k] is None,
        decreases ours_count - o,
    {
        res.push(None);
        o += 1;
    }
    let mut t: usize = 0;
    while t < added.partners.len()
        invariant
            t <= added.partners.len(),
            a.wf(),
            ours_count == a.ours.len(),
            added.new_theirs@ == a.new_theirs(),
            added.partners.len() == a.theirs.len(),
            forall|t: int|
                0 <= t < a.theirs.len() && a.new_theirs()[t] ==> #[trigger] added.partners@[t]
                    == a.partner(t),
            res.len() == ours_count,
            forall|o: int|
                0 <= o < ours_count ==> #[trigger] res@[o] == theirs_among(a, o, t as int),
        decreases added.partners.len() - t,
    {
        let ghost before = res@;
        if added.new_theirs[t] {
            assert(added.partners@[t as int] == a.partner(t as int));
            if let Some(o) = added.partners[t] {
                proof {
                    additions::lemma_added_partner(a, t as int);
                }
                res.set(o, Some(t));
            }
        }
        proof {
            assert forall|o: int| 0 <= o < ours_count implies #[trigger] res@[o] == theirs_among(
                a,
                o,
                t + 1,
            ) by {
                lemma_theirs_among(a, o, t as int);
                assert(before[o] == theirs_among(a, o, t as int));
            }
        }
        t += 1;
    }
    proof {
        assert forall|o: int| 0 <= o < ours_count implies #[trigger] res@[o] == theirs_of(a, o) by {
            if theirs_of(a, o) is Some {
                lemma_theirs_of(a, o);
            }
        }
    }
    res
}

/// Lists the rows.
fn list_rows(
    base_to_ours: &Vec<Option<usize>>,
    base_to_theirs: &Vec<Option<usize>>,
    added: &AddedMatches,
    Ghost(a): Ghost<Additions>,
) -> (res: Vec<MergeEntry>)
    requires
        a.wf(),
        a.base_to_ours == base_to_ours@,
        a.base_to_theirs == base_to_theirs@,
        added.new_ours@ == a.new_ours(),
        added.new_theirs@ == a.new_theirs(),
        added.partners.len() == a.theirs.len(),
        forall|t: int|
            0 <= t < a.theirs.len() && a.new_theirs()[t] ==> #[trigger] added.partners@[t]
                == a.partner(t),
    ensures
        res@ == identity_rows(a),
{
    let paired = pair_up(added, added.new_ours.len(), Ghost(a));
    let mut entries: Vec<MergeEntry> = Vec::new();
    let mut i: usize = 0;
    while i < base_to_ours.len()
        invariant
            i <= base_to_ours.len(),
            base_to_ours.len() == base_to_theirs.len(),
            a.base_to_ours == base_to_ours@,
            a.base_to_theirs == base_to_theirs@,
            entries.len() == i,
            forall|k: int|
                0 <= k < i ==> #[trigger] entries@[k] == (MergeEntry {
                    base: Some(k as usize),
                    ours: a.base_to_ours[k],
                    theirs: a.base_to_theirs[k],
                }),
        decreases base_to_ours.len() - i,
    {
        entries.push(MergeEntry { base: Some(i), ours: base_to_ours[i], theirs: base_to_theirs[i] });
        i += 1;
    }
    let ghost first = entries@;
    let mut o: usize = 0;
    assert(first + ours_rows_upto(a, 0) =~= first);
    while o < added.new_ours.len()
        invariant
            o <= added.new_ours.len(),
            added.new_ours@ == a.new_ours(),
            paired.len() == added.new_ours.len(),
            forall|k: int| 0 <= k < paired@.len() ==> #[trigger] paired@[k] == theirs_of(a, k),
            entries@ == first + ours_rows_upto(a, o as int),
        decreases added.new_ours.len() - o,
    {
        if added.new_ours[o] {
            assert(paired@[o as int] == theirs_of(a, o as int));
            entries.push(MergeEntry { base: None, ours: Some(o), theirs: paired[o] });
            assert(entries@ =~= first + ours_rows_upto(a, o + 1));
        } else {
            assert(ours_rows_upto(a, o + 1) =~= ours_rows_upto(a, o as int));
        }
        o += 1;
    }
    let ghost second = entries@;
    let mut t: usize = 0;
    assert(second + theirs_rows_upto(a, 0) =~= second);
    while t < added.new_theirs.len()
        invariant
            t <= added.new_theirs.len(),
            added.new_theirs@ == a.new_theirs(),
            added.partners.len() == a.theirs.len(),
            added.new_theirs.len() == a.theirs.len(),
            forall|t: int|
                0 <= t < a.theirs.len() && a.new_theirs()[t] ==> #[trigger] added.partners@[t]
                    == a.partner(t),
            entries@ == second + theirs_rows_upto(a, t as int),
        decreases added.new_theirs.len() - t,
    {
        proof {
            if a.new_theirs()[t as int] {
                assert(added.partners@[t as int] == a.partner(t as int));
            }
        }
        if added.new_theirs[t] && added.partners[t].is_none() {
            assert(lone_theirs(a)[t as int]);
            entries.push(MergeEntry { base: None, ours: None, theirs: Some(t) });
            assert(entries@ =~= second + theirs_rows_upto(a, t + 1));
        } else {
            assert(!lone_theirs(a)[t as int]);
            assert(theirs_rows_upto(a, t + 1) =~= theirs_rows_upto(a, t as int));
        }
        t += 1;
    }
    proof {
        let base = Seq::new(
            a.base_to_ours.len(),
            |i: int|
                MergeEntry {
                    base: Some(i as usize),
                    ours: a.base_to_ours[i],
                    theirs: a.base_to_theirs[i],
                },
        );
        assert(first =~= base);
    }
    entries
}

/// Finds the row of every instance.
fn index_rows(entries: Vec<MergeEntry>, Ghost(a): Ghost<Additions>, Ghost(base): Ghost<DomModel>, ours_count: usize, theirs_count: usize, base_count: usize) -> (res:
    IdentitySet)
    requires
        a.wf(),
        entries@ == identity_rows(a),
        ours_count == a.ours.len(),
        theirs_count == a.theirs.len(),
        base_count == base.len(),
        base.len() == a.base_to_ours.len(),
    ensures
        res@.entries == identity_rows(a),
        identity_wf(res@, base, a.ours, a.theirs),
{
    let mut ours_rows: Vec<usize> = Vec::new();
    let mut i: usize = 0;
    while i < ours_count
        invariant
            i <= ours_count,
            ours_rows.len() == i,
        decreases ours_count - i,
    {
        ours_rows.push(0);
        i += 1;
    }
    let mut theirs_rows: Vec<usize> = Vec::new();
    i = 0;
    while i < theirs_count
        invariant
            i <= theirs_count,
            theirs_rows.len() == i,
        decreases theirs_count - i,
    {
        theirs_rows.push(0);
        i += 1;
    }
    proof {
        assert forall|r: int| 0 <= r < entries@.len() implies ((#[trigger] entries@[r]).ours is Some
            ==> entries@[r].ours->0 < a.ours.len()) && (entries@[r].theirs is Some
            ==> entries@[r].theirs->0 < a.theirs.len()) by {
            lemma_row(a, r);
            lemma_marked(a.new_ours(), a.ours.len() as int);
            lemma_marked(lone_theirs(a), a.theirs.len() as int);
            let n = a.base_to_ours.len() as int;
            let mo = marked(a.new_ours(), a.ours.len() as int);
            if n <= r < n + mo.len() && entries@[r].theirs is Some {
                lemma_theirs_of(a, mo[r - n] as int);
            }
        }
    }
    let mut table = no_entries();
    assert(entries_view(identity_entries(table)) =~= entries@.take(0));
    let mut r: usize = 0;
    while r < entries.len()
        invariant
            r <= entries.len(),
            a.wf(),
            entries@ == identity_rows(a),
            is_numbered(identity_entries(table)),
            identity_entries(table).dom().len() == r,
            entries_view(identity_entries(table)) == entries@.take(r as int),
            ours_count == a.ours.len(),
            theirs_count == a.theirs.len(),
            ours_rows.len() == ours_count,
            theirs_rows.len() == theirs_count,
            forall|r: int|
                0 <= r < entries@.len() ==> ((#[trigger] entries@[r]).ours is Some
                    ==> entries@[r].ours->0 < a.ours.len()) && (entries@[r].theirs is Some
                    ==> entries@[r].theirs->0 < a.theirs.len()),
            forall|s: int|
                0 <= s < r && (#[trigger] entries@[s]).ours is Some
                    ==> ours_rows@[entries@[s].ours->0 as int] == s,
            forall|s: int|
                0 <= s < r && (#[trigger] entries@[s]).theirs is Some
                    ==> theirs_rows@[entries@[s].theirs->0 as int] == s,
        decreases entries.len() - r,
    {
        let entry = entries[r];
        assert(entries@[r as int] == entry);
        proof {
            lemma_put_next(identity_entries(table), r, entry);
            assert(entries@.take(r + 1) =~= entries@.take(r as int).push(entry));
        }
        put_entry(&mut table, r, entry);
        if let Some(o) = entry.ours {
            ours_rows.set(o, r);
        }
        if let Some(t) = entry.theirs {
            theirs_rows.set(t, r);
        }
        proof {
            assert forall|s: int| 0 <= s < r + 1 && (#[trigger] entries@[s]).ours is Some implies ours_rows@[entries@[s].ours->0 as int]
                == s by {
                if s < r {
                    lemma_rows_distinct(a, s, r as int);
                }
            }
            assert forall|s: int| 0 <= s < r + 1 && (#[trigger] entries@[s]).theirs is Some implies theirs_rows@[entries@[s].theirs->0 as int]
                == s by {
                if s < r {
                    lemma_rows_distinct(a, s, r as int);
                }
            }
        }
        r += 1;
    }
    let _count: usize = entries.len();
    assert(entries@.take(entries@.len() as int) =~= entries@);
    let res = IdentitySet { entries: table, base_count, ours_rows, theirs_rows };
    proof {
        let id = res@;
        let n = a.base_to_ours.len() as int;
        assert forall|o: int| 0 <= o < a.ours.len() implies (#[trigger] id.ours_rows[o])
            < id.entries.len() && id.entries[id.ours_rows[o] as int].ours == Some(o as usize) by {
            let r = lemma_ours_complete(a, o);
            assert(id.entries[r].ours == Some(o as usize));
            assert(ours_rows@[id.entries[r].ours->0 as int] == r);
        }
        assert forall|t: int| 0 <= t < a.theirs.len() implies (#[trigger] id.theirs_rows[t])
            < id.entries.len() && id.entries[id.theirs_rows[t] as int].theirs == Some(
            t as usize,
        ) by {
            let r = lemma_theirs_complete(a, t);
            assert(id.entries[r].theirs == Some(t as usize));
            assert(theirs_rows@[id.entries[r].theirs->0 as int] == r);
        }
        assert forall|r: int| 0 <= r < id.entries.len() implies (#[trigger] id.entries[r]).base
            == (if r < base.len() {
            Some(r as usize)
        } else {
            None
        }) && (id.entries[r].base is Some || id.entries[r].ours is Some
            || id.entries[r].theirs is Some) by {
            lemma_row(a, r);
        }
        lemma_row(a, 0);
        assert(id.entries[0] == (MergeEntry {
            base: Some(0usize),
            ours: Some(0usize),
            theirs: Some(0usize),
        }));
    }
    res
}

// ---------------------------------------------------------------------------
// Remarks on guesses
// ---------------------------------------------------------------------------

/// Whether two notes are about the same group of siblings.
pub open spec fn same_group(a: PositionalModel, b: PositionalModel) -> bool {
    a.base_parent == b.base_parent && a.class == b.class && a.name == b.name
}

pub open spec fn noted_before(s: Seq<PositionalModel>, n: int) -> bool {
    exists|j: int| 0 <= j < n && same_group(#[trigger] s[j], s[n])
}

pub open spec fn positional_notice(base: DomModel, p: PositionalModel) -> NoticeModel {
    let path = semantic::dom_path(base, p.base_parent as int);
    NoticeModel {
        first: path,
        second: p.name,
        third: p.class,
        diagnostic: diagnostics::positional_identity_model(path, p.class, p.name, p.count as int),
    }
}

/// The notices on the first `n` notes, in order; a group is noted once.
pub open spec fn positional_notices(base: DomModel, s: Seq<PositionalModel>, n: int) -> Seq<
    NoticeModel,
>
    decreases n,
{
    if n <= 0 {
        Seq::empty()
    } else if noted_before(s, n - 1) {
        positional_notices(base, s, n - 1)
    } else {
        notices::insert_notice(
            positional_notices(base, s, n - 1),
            positional_notice(base, s[n - 1]),
        )
    }
}

/// Whether two notes are about the same instance getting the same name.
pub open spec fn same_rename(a: RenameModel, b: RenameModel) -> bool {
    a.base_id == b.base_id && a.to == b.to
}

pub open spec fn renamed_before(s: Seq<RenameModel>, n: int) -> bool {
    exists|j: int| 0 <= j < n && same_rename(#[trigger] s[j], s[n])
}

pub open spec fn rename_notice(base: DomModel, r: RenameModel) -> NoticeModel {
    let path = semantic::dom_path(base, r.base_id as int);
    NoticeModel {
        first: path,
        second: r.from,
        third: r.to,
        diagnostic: diagnostics::renamed_instance_model(path, r.class, r.from, r.to),
    }
}

pub open spec fn rename_notices(base: DomModel, s: Seq<RenameModel>, n: int) -> Seq<NoticeModel>
    decreases n,
{
    if n <= 0 {
        Seq::empty()
    } else if renamed_before(s, n - 1) {
        rename_notices(base, s, n - 1)
    } else {
        notices::insert_notice(rename_notices(base, s, n - 1), rename_notice(base, s[n - 1]))
    }
}

/// The additions of theirs that have several candidates.
pub open spec fn ambiguous_flags(a: Additions) -> Seq<bool> {
    Seq::new(a.theirs.len(), |t: int| a.ambiguous(t))
}

/// The remarks on the marked instances among the first `n`.
pub open spec fn ambiguity_diagnostics(theirs: DomModel, flags: Seq<bool>, n: int) -> Seq<
    DiagnosticModel,
>
    decreases n,
{
    if n <= 0 {
        Seq::empty()
    } else if flags[n - 1] {
        ambiguity_diagnostics(theirs, flags, n - 1).push(
            diagnostics::ambiguous_identity_model(semantic::dom_path(theirs, n - 1)),
        )
    } else {
        ambiguity_diagnostics(theirs, flags, n - 1)
    }
}

/// Remarks on the marked instances.
fn report_ambiguities(
    theirs: &SemanticDom,
    flags: &Vec<bool>,
    diagnostics: &mut Vec<Diagnostic>,
)
    requires
        theirs.wf(),
        flags.len() == theirs@.len(),
    ensures
        diagnostics::diagnostics_view(final(diagnostics)@) == diagnostics::diagnostics_view(
            old(diagnostics)@,
        ) + ambiguity_diagnostics(theirs@, flags@, theirs@.len() as int),
{
    let ghost so_far = diagnostics::diagnostics_view(diagnostics@);
    assert(so_far + ambiguity_diagnostics(theirs@, flags@, 0) =~= so_far);
    let mut t: usize = 0;
    while t < theirs.count()
        invariant
            theirs.wf(),
            t <= theirs@.len(),
            flags.len() == theirs@.len(),
            diagnostics::diagnostics_view(diagnostics@) == so_far + ambiguity_diagnostics(
                theirs@,
                flags@,
                t as int,
            ),
        decreases theirs@.len() - t,
    {
        if flags[t] {
            let ghost now = diagnostics::diagnostics_view(diagnostics@);
            let remark = ambiguous_identity_diagnostic(theirs.path(t));
            diagnostics.push(remark);
            proof {
                let before = ambiguity_diagnostics(theirs@, flags@, t as int);
                let after = ambiguity_diagnostics(theirs@, flags@, t + 1);
                assert(after == before.push(remark@));
                assert(diagnostics::diagnostics_view(diagnostics@) =~= now.push(remark@));
                assert((so_far + before).push(remark@) =~= so_far + after);
            }
        }
        t += 1;
    }
}

/// Collects the notes on positional pairs, each group once, in order.
fn collect_positional(base: &SemanticDom, notes: &Vec<PositionalMatch>) -> (res: Vec<Notice>)
    requires
        base.wf(),
        forall|i: int| 0 <= i < notes@.len() ==> (#[trigger] notes@[i]).base_parent < base@.len(),
    ensures
        notices::notices_view(res@) == positional_notices(
            base@,
            matching::positional_view(notes@),
            notes@.len() as int,
        ),
{
    let ghost view = matching::positional_view(notes@);
    let mut out: Vec<Notice> = Vec::new();
    assert(notices::notices_view(out@) =~= Seq::<NoticeModel>::empty());
    let mut i: usize = 0;
    while i < notes.len()
        invariant
            i <= notes.len(),
            base.wf(),
            view == matching::positional_view(notes@),
            forall|i: int|
                0 <= i < notes@.len() ==> (#[trigger] notes@[i]).base_parent < base@.len(),
            notices::notices_view(out@) == positional_notices(base@, view, i as int),
        decreases notes.len() - i,
    {
        let note = &notes[i];
        assert(view[i as int] == note@);
        let mut seen = false;
        let mut j: usize = 0;
        while j < i
            invariant
                j <= i < notes.len(),
                view == matching::positional_view(notes@),
                note@ == view[i as int],
                seen <==> exists|k: int| 0 <= k < j && same_group(#[trigger] view[k], view[i as int]),
            decreases i - j,
        {
            let other = &notes[j];
            assert(view[j as int] == other@);
            if other.base_parent == note.base_parent && same_text(
                other.class.as_str(),
                note.class.as_str(),
            ) && same_text(other.name.as_str(), note.name.as_str()) {
                assert(same_group(view[j as int], view[i as int]));
                seen = true;
            }
            j += 1;
        }
        assert(seen <==> noted_before(view, i as int));
        assert(notes@[i as int].base_parent < base@.len());
        if !seen {
            let path = base.path(note.base_parent);
            let diagnostic = positional_identity_diagnostic(
                path.clone(),
                note.class.as_str(),
                note.name.as_str(),
                note.count,
            );
            add_notice(
                &mut out,
                Notice {
                    first: path,
                    second: note.name.clone(),
                    third: note.class.clone(),
                    diagnostic,
                },
            );
        }
        i += 1;
    }
    out
}

/// Collects the notes on new names, each once, in order.
fn collect_renames(base: &SemanticDom, notes: &Vec<RenameMatch>) -> (res: Vec<Notice>)
    requires
        base.wf(),
        forall|i: int| 0 <= i < notes@.len() ==> (#[trigger] notes@[i]).base_id < base@.len(),
    ensures
        notices::notices_view(res@) == rename_notices(
            base@,
            matching::renames_view(notes@),
            notes@.len() as int,
        ),
{
    let ghost view = matching::renames_view(notes@);
    let mut out: Vec<Notice> = Vec::new();
    assert(notices::notices_view(out@) =~= Seq::<NoticeModel>::empty());
    let mut i: usize = 0;
    while i < notes.len()
        invariant
            i <= notes.len(),
            base.wf(),
            view == matching::renames_view(notes@),
            forall|i: int| 0 <= i < notes@.len() ==> (#[trigger] notes@[i]).base_id < base@.len(),
            notices::notices_view(out@) == rename_notices(base@, view, i as int),
        decreases notes.len() - i,
    {
        let note = &notes[i];
        assert(view[i as int] == note@);
        let mut seen = false;
        let mut j: usize = 0;
        while j < i
            invariant
                j <= i < notes.len(),
                view == matching::renames_view(notes@),
                note@ == view[i as int],
                seen <==> exists|k: int| 0 <= k < j && same_rename(#[trigger] view[k], view[i as int]),
            decreases i - j,
        {
            let other = &notes[j];
            assert(view[j as int] == other@);
            if other.base_id == note.base_id && same_text(other.to.as_str(), note.to.as_str()) {
                assert(same_rename(view[j as int], view[i as int]));
                seen = true;
            }
            j += 1;
        }
        assert(seen <==> renamed_before(view, i as int));
        assert(notes@[i as int].base_id < base@.len());
        if !seen {
            let path = base.path(note.base_id);
            let diagnostic = renamed_instance_diagnostic(
                path.clone(),
                note.class.as_str(),
                note.from.as_str(),
                note.to.as_str(),
            );
            add_notice(
                &mut out,
                Notice {
                    first: path,
                    second: note.from.clone(),
                    third: note.to.clone(),
                    diagnostic,
                },
            );
        }
        i += 1;
    }
    out
}

/// The matching of the base with a side.
pub open spec fn matching_of(base: DomModel, side: DomModel, classes: Classes) -> Matching {
    Matching { base, side, classes }
}

/// The additions that the matches of the base leave.
pub open spec fn additions_of(
    base: DomModel,
    ours: DomModel,
    theirs: DomModel,
    classes: Classes,
) -> Additions {
    Additions {
        ours,
        theirs,
        base_to_ours: Seq::new(base.len(), |i: int| matching_of(base, ours, classes).partner(i)),
        base_to_theirs: Seq::new(
            base.len(),
            |i: int| matching_of(base, theirs, classes).partner(i),
        ),
    }
}

/// The remarks on the guesses that the rows rest on: positional pairs, new names,
/// then additions with several candidates.
pub open spec fn identity_diagnostics(
    base: DomModel,
    ours: DomModel,
    theirs: DomModel,
    classes: Classes,
) -> Seq<DiagnosticModel> {
    let n = base.len() as int;
    let mo = matching_of(base, ours, classes);
    let mt = matching_of(base, theirs, classes);
    let positional = mo.positional(n) + mt.positional(n);
    let renames = mo.renames(n) + mt.renames(n);
    notices::notice_diagnostics(positional_notices(base, positional, positional.len() as int))
        + notices::notice_diagnostics(rename_notices(base, renames, renames.len() as int))
        + ambiguity_diagnostics(
        theirs,
        ambiguous_flags(additions_of(base, ours, theirs, classes)),
        theirs.len() as int,
    )
}

/// The notes speak of instances of the base.
proof fn lemma_positional_parents(m: Matching, n: int, i: int)
    requires
        m.wf(),
        0 <= n <= m.base.len(),
        0 <= i < m.positional(n).len(),
    ensures
        m.positional(n)[i].base_parent < m.base.len(),
    decreases n,
{
    let before = m.positional(n - 1);
    if i < before.len() {
        lemma_positional_parents(m, n - 1, i);
        assert(m.positional(n)[i] == before[i]);
    } else {
        let q = m.partner(n - 1)->0;
        let fb = m.free_base(n - 1);
        lemma_notes_parent(
            m,
            fb,
            m.free_side(q as int),
            (n - 1) as usize,
            fb.len() as int,
            i - before.len(),
        );
    }
}

proof fn lemma_notes_parent(
    m: Matching,
    fb: Seq<usize>,
    fs: Seq<usize>,
    p: usize,
    n: int,
    i: int,
)
    requires
        0 <= i < matching::positional_notes(m.base, m.side, fb, fs, p, n).len(),
    ensures
        matching::positional_notes(m.base, m.side, fb, fs, p, n)[i].base_parent == p,
    decreases n,
{
    let before = matching::positional_notes(m.base, m.side, fb, fs, p, n - 1);
    if i < before.len() {
        lemma_notes_parent(m, fb, fs, p, n - 1, i);
    }
}

proof fn lemma_rename_ids(m: Matching, n: int, i: int)
    requires
        m.wf(),
        0 <= n <= m.base.len(),
        0 <= i < m.renames(n).len(),
    ensures
        m.renames(n)[i].base_id < m.base.len(),
    decreases n,
{
    let before = m.renames(n - 1);
    if i < before.len() {
        lemma_rename_ids(m, n - 1, i);
        assert(m.renames(n)[i] == before[i]);
    } else {
        matching::lemma_partner(m, n - 1);
        let q = m.partner(n - 1)->0;
        let fb = m.free_base(n - 1);
        matching::lemma_free(m, n - 1, q as int);
        lemma_rename_note_ids(m, fb, m.free_side(q as int), fb.len() as int, i - before.len());
    }
}

proof fn lemma_rename_note_ids(m: Matching, fb: Seq<usize>, fs: Seq<usize>, n: int, i: int)
    requires
        0 <= n <= fb.len(),
        forall|k: int| 0 <= k < fb.len() ==> (#[trigger] fb[k]) < m.base.len(),
        0 <= i < matching::rename_notes(m.base, m.side, fb, fs, n).len(),
    ensures
        matching::rename_notes(m.base, m.side, fb, fs, n)[i].base_id < m.base.len(),
    decreases n,
{
    let before = matching::rename_notes(m.base, m.side, fb, fs, n - 1);
    if i < before.len() {
        lemma_rename_note_ids(m, fb, fs, n - 1, i);
    }
}

/// The matches of the base leave additions that are well-formed.
pub proof fn lemma_additions_wf(base: DomModel, ours: DomModel, theirs: DomModel, classes: Classes)
    requires
        semantic::dom_wf(base),
        semantic::dom_wf(ours),
        semantic::dom_wf(theirs),
    ensures
        additions_of(base, ours, theirs, classes).wf(),
{
    let a = additions_of(base, ours, theirs, classes);
    lemma_matches_wf(matching_of(base, ours, classes), a.base_to_ours);
    lemma_matches_wf(matching_of(base, theirs, classes), a.base_to_theirs);
}

proof fn lemma_matches_wf(m: Matching, matches: Seq<Option<usize>>)
    requires
        m.wf(),
        matches.len() == m.base.len(),
        forall|i: int| 0 <= i < matches.len() ==> #[trigger] matches[i] == m.partner(i),
    ensures
        additions::matches_wf(matches, m.side.len() as int),
{
    assert forall|i: int| 0 <= i < matches.len() && (#[trigger] matches[i]) is Some implies matches[i]->0
        < m.side.len() by {
        matching::lemma_partner(m, i);
    }
    assert forall|i: int, j: int|
        0 <= i < matches.len() && 0 <= j < matches.len() && (#[trigger] matches[i]) is Some
            && matches[i] == (#[trigger] matches[j]) implies i == j by {
        matching::lemma_partner_injective(m, i, j);
    }
    assert(matches[0] == m.partner(0));
}

/// Joins two lists of notes.
fn joined_notes(
    base: &SemanticDom,
    ours: SideMatch,
    theirs: SideMatch,
    Ghost(mo): Ghost<Matching>,
    Ghost(mt): Ghost<Matching>,
    diagnostics: &mut Vec<Diagnostic>,
)
    requires
        base.wf(),
        mo.wf(),
        mt.wf(),
        mo.base == base@,
        mt.base == base@,
        matching::positional_view(ours.positional@) == mo.positional(base@.len() as int),
        matching::positional_view(theirs.positional@) == mt.positional(base@.len() as int),
        matching::renames_view(ours.renames@) == mo.renames(base@.len() as int),
        matching::renames_view(theirs.renames@) == mt.renames(base@.len() as int),
    ensures
        ({
            let n = base@.len() as int;
            let positional = mo.positional(n) + mt.positional(n);
            let renames = mo.renames(n) + mt.renames(n);
            diagnostics::diagnostics_view(final(diagnostics)@) == diagnostics::diagnostics_view(
                old(diagnostics)@,
            ) + notices::notice_diagnostics(
                positional_notices(base@, positional, positional.len() as int),
            ) + notices::notice_diagnostics(rename_notices(base@, renames, renames.len() as int))
        }),
{
    let ghost n = base@.len() as int;
    let ghost old_positional = ours.positional@;
    let ghost more_positional = theirs.positional@;
    let ghost old_renames = ours.renames@;
    let ghost more_renames = theirs.renames@;
    let mut positional = ours.positional;
    let mut rest = theirs.positional;
    positional.append(&mut rest);
    let mut renames = ours.renames;
    let mut rest_renames = theirs.renames;
    renames.append(&mut rest_renames);
    proof {
        assert(matching::positional_view(positional@) =~= mo.positional(n) + mt.positional(n));
        assert(matching::renames_view(renames@) =~= mo.renames(n) + mt.renames(n));
        assert forall|i: int| 0 <= i < positional@.len() implies (
        #[trigger] positional@[i]).base_parent < base@.len() by {
            let view = matching::positional_view(positional@);
            assert(view[i] == positional@[i]@);
            if i < old_positional.len() {
                assert(view[i] == mo.positional(n)[i]);
                lemma_positional_parents(mo, n, i);
            } else {
                assert(view[i] == mt.positional(n)[i - old_positional.len()]);
                lemma_positional_parents(mt, n, i - old_positional.len());
            }
        }
        assert forall|i: int| 0 <= i < renames@.len() implies (#[trigger] renames@[i]).base_id
            < base@.len() by {
            let view = matching::renames_view(renames@);
            assert(view[i] == renames@[i]@);
            if i < old_renames.len() {
                assert(view[i] == mo.renames(n)[i]);
                lemma_rename_ids(mo, n, i);
            } else {
                assert(view[i] == mt.renames(n)[i - old_renames.len()]);
                lemma_rename_ids(mt, n, i - old_renames.len());
            }
        }
    }
    let positional_list = collect_positional(base, &positional);
    report_notices(positional_list, diagnostics);
    let rename_list = collect_renames(base, &renames);
    report_notices(rename_list, diagnostics);
}

/// Decides which instances of the three sides are one instance, and remarks on
/// the guesses.
pub fn build_identities(
    base: &SemanticDom,
    ours: &SemanticDom,
    theirs: &SemanticDom,
    db: &ReflectionDatabase<'static>,
) -> (res: (IdentitySet, Vec<Diagnostic>))
    requires
        base.wf(),
        ours.wf(),
        theirs.wf(),
    ensures
        identity_wf(res.0@, base@, ours@, theirs@),
        res.0@.entries == identity_rows(additions_of(base@, ours@, theirs@, dom::classes(*db))),
        diagnostics::diagnostics_view(res.1@) == identity_diagnostics(
            base@,
            ours@,
            theirs@,
            dom::classes(*db),
        ),
{
    let ghost classes = dom::classes(*db);
    let ghost a = additions_of(base@, ours@, theirs@, classes);
    let base_to_ours = match_base_to_side(base, ours, db);
    let base_to_theirs = match_base_to_side(base, theirs, db);
    proof {
        lemma_additions_wf(base@, ours@, theirs@, classes);
        assert(base_to_ours.map@ =~= a.base_to_ours);
        assert(base_to_theirs.map@ =~= a.base_to_theirs);
    }
    let added = match_additions(ours, theirs, &base_to_ours.map, &base_to_theirs.map);
    let entries = list_rows(&base_to_ours.map, &base_to_theirs.map, &added, Ghost(a));
    let identities = index_rows(
        entries,
        Ghost(a),
        Ghost(base@),
        ours.count(),
        theirs.count(),
        base.count(),
    );
    let mut diagnostics: Vec<Diagnostic> = Vec::new();
    joined_notes(
        base,
        base_to_ours,
        base_to_theirs,
        Ghost(matching_of(base@, ours@, classes)),
        Ghost(matching_of(base@, theirs@, classes)),
        &mut diagnostics,
    );
    assert(added.ambiguous@ =~= ambiguous_flags(a));
    report_ambiguities(theirs, &added.ambiguous, &mut diagnostics);
    assert(diagnostics::diagnostics_view(diagnostics@) =~= identity_diagnostics(
        base@,
        ours@,
        theirs@,
        classes,
    ));
    (identities, diagnostics)
}

} // verus!
