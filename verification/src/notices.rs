//! Remarks that are put in order before they are reported.

use vstd::prelude::*;

use crate::diagnostics;
use crate::diagnostics::{Diagnostic, DiagnosticModel};
use crate::text;
use crate::text::{same_text, text_less, Text};

verus! {

/// A diagnostic with the three texts that it is sorted by.
pub struct Notice {
    pub first: String,
    pub second: String,
    pub third: String,
    pub diagnostic: Diagnostic,
}

/// The mathematical counterpart of [`Notice`].
#[verifier::ext_equal]
pub ghost struct NoticeModel {
    pub first: Text,
    pub second: Text,
    pub third: Text,
    pub diagnostic: DiagnosticModel,
}

impl View for Notice {
    type V = NoticeModel;

    open spec fn view(&self) -> NoticeModel {
        NoticeModel {
            first: self.first@,
            second: self.second@,
            third: self.third@,
            diagnostic: self.diagnostic@,
        }
    }
}

pub open spec fn notices_view(s: Seq<Notice>) -> Seq<NoticeModel> {
    s.map_values(|n: Notice| n@)
}

pub open spec fn notice_lt(a: NoticeModel, b: NoticeModel) -> bool {
    text::text_lt(a.first, b.first) || (a.first == b.first && (text::text_lt(a.second, b.second)
        || (a.second == b.second && text::text_lt(a.third, b.third))))
}

/// Puts a notice into a sorted list, behind those that are not greater.
pub open spec fn insert_notice(s: Seq<NoticeModel>, x: NoticeModel) -> Seq<NoticeModel>
    decreases s.len(),
{
    if s.len() == 0 || !notice_lt(x, s.last()) {
        s.push(x)
    } else {
        insert_notice(s.drop_last(), x).push(s.last())
    }
}

/// The notices in order; equal ones keep the order that they had.
pub open spec fn sort_notices(s: Seq<NoticeModel>) -> Seq<NoticeModel>
    decreases s.len(),
{
    if s.len() == 0 {
        Seq::empty()
    } else {
        insert_notice(sort_notices(s.drop_last()), s.last())
    }
}

proof fn lemma_insert_notice(s: Seq<NoticeModel>, x: NoticeModel, k: int)
    requires
        0 <= k <= s.len(),
        k > 0 ==> !notice_lt(x, s[k - 1]),
        forall|j: int| k <= j < s.len() ==> notice_lt(x, #[trigger] s[j]),
    ensures
        insert_notice(s, x) == s.insert(k, x),
    decreases s.len(),
{
    if s.len() == 0 || !notice_lt(x, s.last()) {
        assert(k == s.len());
        assert(s.push(x) =~= s.insert(k, x));
    } else {
        let t = s.drop_last();
        assert(k < s.len());
        lemma_insert_notice(t, x, k);
        assert(s.insert(k, x) =~= t.insert(k, x).push(s.last()));
    }
}

fn is_notice_less(a: &Notice, b: &Notice) -> (res: bool)
    ensures
        res == notice_lt(a@, b@),
{
    if text_less(a.first.as_str(), b.first.as_str()) {
        return true;
    }
    if !same_text(a.first.as_str(), b.first.as_str()) {
        return false;
    }
    if text_less(a.second.as_str(), b.second.as_str()) {
        return true;
    }
    same_text(a.second.as_str(), b.second.as_str()) && text_less(a.third.as_str(), b.third.as_str())
}

/// Adds a notice to a list that is kept in order.
pub fn add_notice(list: &mut Vec<Notice>, notice: Notice)
    ensures
        notices_view(final(list)@) == insert_notice(notices_view(old(list)@), notice@),
{
    let ghost before = notices_view(list@);
    let mut i: usize = list.len();
    while i > 0 && is_notice_less(&notice, &list[i - 1])
        invariant
            i <= list.len(),
            before == notices_view(list@),
            forall|j: int| i <= j < before.len() ==> notice_lt(notice@, #[trigger] before[j]),
        decreases i,
    {
        i -= 1;
    }
    proof {
        lemma_insert_notice(before, notice@, i as int);
    }
    let ghost added = notice@;
    list.insert(i, notice);
    assert(notices_view(list@) =~= before.insert(i as int, added));
}

/// The diagnostics of the notices, in order.
pub open spec fn notice_diagnostics(s: Seq<NoticeModel>) -> Seq<DiagnosticModel> {
    s.map_values(|n: NoticeModel| n.diagnostic)
}

/// Hands the diagnostics of the notices on.
pub fn report_notices(list: Vec<Notice>, diagnostics: &mut Vec<Diagnostic>)
    ensures
        diagnostics::diagnostics_view(final(diagnostics)@) == diagnostics::diagnostics_view(
            old(diagnostics)@,
        ) + notice_diagnostics(notices_view(list@)),
{
    let ghost all = notice_diagnostics(notices_view(list@));
    let ghost before = diagnostics::diagnostics_view(diagnostics@);
    let ghost total = list@.len();
    let mut rest = list;
    let ghost whole = rest@;
    let mut reversed: Vec<Diagnostic> = Vec::new();
    while rest.len() > 0
        invariant
            whole.len() == total,
            rest.len() + reversed.len() == total,
            rest@ == whole.take(rest@.len() as int),
            forall|i: int|
                0 <= i < reversed@.len() ==> (#[trigger] reversed@[i]) == whole[total - 1
                    - i].diagnostic,
        decreases rest.len(),
    {
        let ghost n = rest@.len();
        match rest.pop() {
            Some(notice) => {
                reversed.push(notice.diagnostic);
                assert(whole.take(n as int).drop_last() =~= whole.take(n - 1));
            },
            None => {},
        }
    }
    while reversed.len() > 0
        invariant
            whole.len() == total,
            reversed.len() <= total,
            before == diagnostics::diagnostics_view(old(diagnostics)@),
            all == notice_diagnostics(notices_view(whole)),
            forall|i: int|
                0 <= i < reversed@.len() ==> (#[trigger] reversed@[i]) == whole[total - 1
                    - i].diagnostic,
            diagnostics::diagnostics_view(diagnostics@) == before + all.take(
                total - reversed@.len(),
            ),
        decreases reversed.len(),
    {
        let ghost done = total - reversed@.len();
        let ghost now = diagnostics::diagnostics_view(diagnostics@);
        match reversed.pop() {
            Some(diagnostic) => {
                proof {
                    assert(diagnostic == whole[done].diagnostic);
                    assert(all[done] == diagnostic@);
                    assert(all.take(done + 1) =~= all.take(done).push(all[done]));
                }
                diagnostics.push(diagnostic);
                assert(diagnostics::diagnostics_view(diagnostics@) =~= now.push(all[done]));
                assert(before + all.take(done + 1) =~= (before + all.take(done)).push(all[done]));
            },
            None => {},
        }
    }
    assert(all.take(total as int) =~= all);
}

/// Whether no notice stands before a lesser one.
pub open spec fn in_order(s: Seq<NoticeModel>) -> bool {
    forall|i: int, j: int|
        0 <= i < j < s.len() ==> !notice_lt(#[trigger] s[j], #[trigger] s[i])
}

proof fn lemma_notice_lt_transitive(a: NoticeModel, b: NoticeModel, c: NoticeModel)
    requires
        notice_lt(a, b),
        !notice_lt(c, b),
    ensures
        notice_lt(a, c),
{
    text::lemma_text_lt_total(b.first, c.first);
    text::lemma_text_lt_total(b.second, c.second);
    text::lemma_text_lt_total(b.third, c.third);
    if text::text_lt(a.first, b.first) && text::text_lt(b.first, c.first) {
        text::lemma_text_lt_transitive(a.first, b.first, c.first);
    }
    if text::text_lt(a.second, b.second) && text::text_lt(b.second, c.second) {
        text::lemma_text_lt_transitive(a.second, b.second, c.second);
    }
    if text::text_lt(a.third, b.third) && text::text_lt(b.third, c.third) {
        text::lemma_text_lt_transitive(a.third, b.third, c.third);
    }
}

proof fn lemma_insert_in_order(s: Seq<NoticeModel>, x: NoticeModel)
    requires
        in_order(s),
    ensures
        in_order(insert_notice(s, x)),
        forall|y: NoticeModel| #[trigger]
            insert_notice(s, x).contains(y) <==> s.contains(y) || y == x,
        insert_notice(s, x).to_multiset() == s.to_multiset().insert(x),
    decreases s.len(),
{
    broadcast use vstd::seq_lib::group_to_multiset_ensures;

    let r = insert_notice(s, x);
    if s.len() == 0 || !notice_lt(x, s.last()) {
        assert forall|i: int, j: int| 0 <= i < j < r.len() implies !notice_lt(
            #[trigger] r[j],
            #[trigger] r[i],
        ) by {
            if j == s.len() {
                if notice_lt(x, s[i]) && i < s.len() - 1 {
                    assert(!notice_lt(s.last(), s[i]));
                    lemma_notice_lt_transitive(x, s[i], s.last());
                }
            } else {
                assert(!notice_lt(s[j], s[i]));
            }
        }
        assert forall|y: NoticeModel| #[trigger] r.contains(y) <==> s.contains(y) || y == x by {
            if s.contains(y) {
                let i = s.index_of(y);
                assert(r[i] == y);
            }
            assert(r[s.len() as int] == x);
            if r.contains(y) && y != x {
                let i = r.index_of(y);
                assert(s[i] == y);
            }
        }
        s.to_multiset_ensures();
    } else {
        let t = s.drop_last();
        assert forall|i: int, j: int| 0 <= i < j < t.len() implies !notice_lt(
            #[trigger] t[j],
            #[trigger] t[i],
        ) by {
            assert(!notice_lt(s[j], s[i]));
        }
        lemma_insert_in_order(t, x);
        let u = insert_notice(t, x);
        assert(r == u.push(s.last()));
        assert forall|i: int, j: int| 0 <= i < j < r.len() implies !notice_lt(
            #[trigger] r[j],
            #[trigger] r[i],
        ) by {
            if j == u.len() {
                assert(u.contains(u[i]));
                if u[i] == x {
                    lemma_notice_lt_asymmetric(x, s.last());
                } else {
                    assert(t.contains(u[i]));
                    let k = t.index_of(u[i]);
                    assert(!notice_lt(s[s.len() - 1], s[k]));
                }
            } else {
                assert(!notice_lt(u[j], u[i]));
            }
        }
        assert forall|y: NoticeModel| #[trigger] r.contains(y) <==> s.contains(y) || y == x by {
            assert(u.contains(y) <==> t.contains(y) || y == x);
            if s.contains(y) {
                let i = s.index_of(y);
                if i < t.len() {
                    assert(t[i] == y);
                    let k = u.index_of(y);
                    assert(r[k] == y);
                } else {
                    assert(r[u.len() as int] == y);
                }
            }
            if u.contains(y) {
                let k = u.index_of(y);
                assert(r[k] == y);
            }
            if t.contains(y) {
                let k = t.index_of(y);
                assert(s[k] == y);
            }
            assert(s[s.len() - 1] == s.last());
            if r.contains(y) && y != s.last() {
                let k = r.index_of(y);
                assert(u[k] == y);
            }
        }
        assert(t.push(s.last()) =~= s);
        assert(r.to_multiset() =~= s.to_multiset().insert(x));
    }
}

proof fn lemma_notice_lt_asymmetric(a: NoticeModel, b: NoticeModel)
    requires
        notice_lt(a, b),
    ensures
        !notice_lt(b, a),
{
    text::lemma_text_lt_irreflexive(a.first);
    text::lemma_text_lt_irreflexive(a.second);
    text::lemma_text_lt_irreflexive(a.third);
    if text::text_lt(a.first, b.first) {
        text::lemma_text_lt_asymmetric(a.first, b.first);
    } else if text::text_lt(a.second, b.second) {
        text::lemma_text_lt_asymmetric(a.second, b.second);
    } else {
        text::lemma_text_lt_asymmetric(a.third, b.third);
    }
}

/// Sorted notices are in order, and they are the notices that were sorted.
pub proof fn law_notices_are_sorted(s: Seq<NoticeModel>)
    ensures
        in_order(sort_notices(s)),
        sort_notices(s).to_multiset() == s.to_multiset(),
    decreases s.len(),
{
    broadcast use vstd::seq_lib::group_to_multiset_ensures;

    if s.len() > 0 {
        let t = s.drop_last();
        law_notices_are_sorted(t);
        lemma_insert_in_order(sort_notices(t), s.last());
        assert(t.push(s.last()) =~= s);
    } else {
        assert(sort_notices(s) =~= s);
    }
}

} // verus!
