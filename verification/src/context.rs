//! What every stage of a merge reads, and when two values of different sides are
//! the same value.

use vstd::prelude::*;

use crate::conflict;
use crate::conflict::{Conflict, ConflictKind, ConflictModel, DisplayValue};
use crate::diagnostics;
use crate::identity;
use crate::identity::{IdentityModel, IdentitySet, MergeEntry};
use crate::keyed;
use crate::resolve;
use crate::resolve::{Resolutions, ResolutionsModel, Side};
use crate::semantic;
use crate::semantic::{DomModel, InstanceModel, SemanticDom, SemanticInstance, ValueSource};
use crate::text::{same_text, Text};
use crate::three_way::Sides;
use crate::value;
use crate::value::{same_leaf, Value, ValueModel};

verus! {

/// The three files, which of their instances are one, and the decisions on
/// conflicts.
pub ghost struct Ctx {
    pub base: DomModel,
    pub ours: DomModel,
    pub theirs: DomModel,
    pub rows: IdentityModel,
    pub resolutions: ResolutionsModel,
}

impl Ctx {
    pub open spec fn wf(self) -> bool {
        &&& semantic::dom_wf(self.base)
        &&& semantic::dom_wf(self.ours)
        &&& semantic::dom_wf(self.theirs)
        &&& identity::identity_wf(self.rows, self.base, self.ours, self.theirs)
    }

    /// The file of a source; a merged value stands in none.
    pub open spec fn file(self, source: ValueSource) -> Option<DomModel> {
        match source {
            ValueSource::Base => Some(self.base),
            ValueSource::Ours => Some(self.ours),
            ValueSource::Theirs => Some(self.theirs),
            ValueSource::Merged => None,
        }
    }

    /// The row that a referent leads to in the file of a source.
    pub open spec fn target(self, source: ValueSource, referent: u128) -> Option<usize> {
        if referent == 0 {
            None
        } else {
            match self.file(source) {
                Some(d) => match semantic::node_of_ref(d, referent) {
                    Some(node) => identity::row_of(self.rows, source, node),
                    None => None,
                },
                None => None,
            }
        }
    }

    /// Whether two referents of different files are the same reference: both nil,
    /// both to the same row, or both to nothing and literally the same.
    pub open spec fn ref_equal(
        self,
        a: u128,
        a_source: ValueSource,
        b: u128,
        b_source: ValueSource,
    ) -> bool {
        if a == 0 || b == 0 {
            a == 0 && b == 0
        } else {
            match (self.target(a_source, a), self.target(b_source, b)) {
                (Some(x), Some(y)) => x == y,
                (None, None) => a == b,
                _ => false,
            }
        }
    }

    /// Whether two values of different files are the same value.
    pub open spec fn value_equal(
        self,
        a: ValueModel,
        a_source: ValueSource,
        b: ValueModel,
        b_source: ValueSource,
    ) -> bool
        decreases a,
    {
        match (a, b) {
            (ValueModel::Ref(x), ValueModel::Ref(y)) => self.ref_equal(x, a_source, y, b_source),
            (ValueModel::Object(x), ValueModel::Object(y)) => self.ref_equal(
                x,
                a_source,
                y,
                b_source,
            ),
            (ValueModel::Attributes(x), ValueModel::Attributes(y)) => {
                &&& x.len() == y.len()
                &&& forall|i: int|
                    0 <= i < x.len() ==> (#[trigger] x[i]).0 == y[i].0 && self.value_equal(
                        x[i].1,
                        a_source,
                        y[i].1,
                        b_source,
                    )
            },
            (ValueModel::Leaf(x), ValueModel::Leaf(y)) => value::leaf_equal(x, y),
            _ => false,
        }
    }

    /// Whether two optional values are the same: both absent, or the same value.
    pub open spec fn option_equal(
        self,
        a: Option<ValueModel>,
        a_source: ValueSource,
        b: Option<ValueModel>,
        b_source: ValueSource,
    ) -> bool {
        match (a, b) {
            (None, None) => true,
            (Some(x), Some(y)) => self.value_equal(x, a_source, y, b_source),
            _ => false,
        }
    }

    /// The instances of a row.
    pub open spec fn nodes(self, entry: MergeEntry) -> Sides<Option<InstanceModel>> {
        Sides {
            base: match entry.base {
                Some(i) => Some(self.base[i as int]),
                None => None,
            },
            ours: match entry.ours {
                Some(i) => Some(self.ours[i as int]),
                None => None,
            },
            theirs: match entry.theirs {
                Some(i) => Some(self.theirs[i as int]),
                None => None,
            },
        }
    }

    /// The file and the instance that a conflict about a row is reported at: ours
    /// where it has one, else theirs, else the base.
    pub open spec fn subject(self, entry: MergeEntry) -> (DomModel, usize) {
        match (entry.ours, entry.theirs) {
            (Some(i), _) => (self.ours, i),
            (None, Some(i)) => (self.theirs, i),
            (None, None) => (self.base, entry.base->0),
        }
    }

    pub open spec fn subject_path(self, entry: MergeEntry) -> Text {
        semantic::dom_path(self.subject(entry).0, self.subject(entry).1 as int)
    }

    /// The parents of a row on the three sides, as rows.
    pub open spec fn parents(self, entry: MergeEntry) -> Sides<Option<usize>> {
        Sides {
            base: self.parent_row(self.nodes(entry).base, ValueSource::Base),
            ours: self.parent_row(self.nodes(entry).ours, ValueSource::Ours),
            theirs: self.parent_row(self.nodes(entry).theirs, ValueSource::Theirs),
        }
    }

    pub open spec fn parent_row(self, node: Option<InstanceModel>, source: ValueSource) -> Option<
        usize,
    > {
        match node {
            Some(node) => match node.parent {
                Some(p) => identity::row_of(self.rows, source, p),
                None => None,
            },
            None => None,
        }
    }
}

/// The conflict about an instance of a file.
pub open spec fn conflict_at(
    d: DomModel,
    id: usize,
    kind: ConflictKind,
    property: Option<Text>,
    labels: Sides<Option<Text>>,
) -> ConflictModel {
    ConflictModel {
        kind,
        path: semantic::dom_path(d, id as int),
        class: d[id as int].class,
        name: d[id as int].name,
        property,
        base: labels.base,
        ours: labels.ours,
        theirs: labels.theirs,
    }
}

/// A row has instances of the files.
pub open spec fn entry_wf(ctx: Ctx, entry: MergeEntry) -> bool {
    &&& entry.base matches Some(i) ==> i < ctx.base.len()
    &&& entry.ours matches Some(i) ==> i < ctx.ours.len()
    &&& entry.theirs matches Some(i) ==> i < ctx.theirs.len()
    &&& entry.base is Some || entry.ours is Some || entry.theirs is Some
}

pub proof fn lemma_entry_wf(ctx: Ctx, r: int)
    requires
        ctx.wf(),
        0 <= r < ctx.rows.entries.len(),
    ensures
        entry_wf(ctx, ctx.rows.entries[r]),
{
    let e = ctx.rows.entries[r];
}

/// What every stage of a merge reads.
pub struct MergeCtx<'a> {
    pub base: &'a SemanticDom,
    pub ours: &'a SemanticDom,
    pub theirs: &'a SemanticDom,
    pub identities: &'a IdentitySet,
    pub resolutions: &'a Resolutions,
}

impl<'a> View for MergeCtx<'a> {
    type V = Ctx;

    open spec fn view(&self) -> Ctx {
        Ctx {
            base: self.base@,
            ours: self.ours@,
            theirs: self.theirs@,
            rows: self.identities@,
            resolutions: self.resolutions@,
        }
    }
}

/// The characters of the labels.
pub open spec fn labels_view(labels: Sides<Option<String>>) -> Sides<Option<Text>> {
    Sides {
        base: diagnostics::option_text(labels.base),
        ours: diagnostics::option_text(labels.ours),
        theirs: diagnostics::option_text(labels.theirs),
    }
}

fn shown(label: Option<String>) -> (res: Option<DisplayValue>)
    ensures
        conflict::option_display(res) == diagnostics::option_text(label),
{
    match label {
        Some(text) => Some(DisplayValue::new(text)),
        None => None,
    }
}

/// Makes the conflict about an instance of a file.
pub fn node_conflict(
    kind: ConflictKind,
    dom: &SemanticDom,
    id: usize,
    property: Option<&str>,
    labels: Sides<Option<String>>,
) -> (res: Conflict)
    requires
        id < dom@.len(),
    ensures
        res@ == conflict_at(
            dom@,
            id,
            kind,
            crate::format::path_view(property),
            labels_view(labels),
        ),
{
    let node = dom.node(id);
    let property: Option<String> = match property {
        Some(p) => Some(p.to_owned()),
        None => None,
    };
    Conflict {
        kind,
        path: dom.path(id),
        class: node.class.clone(),
        name: node.name.clone(),
        property,
        base: shown(labels.base),
        ours: shown(labels.ours),
        theirs: shown(labels.theirs),
    }
}

/// The conflicts after a conflict at an instance of a file: one more, unless it
/// is decided.
pub open spec fn reported(
    resolutions: ResolutionsModel,
    before: Seq<ConflictModel>,
    d: DomModel,
    id: usize,
    kind: ConflictKind,
    property: Option<Text>,
    labels: Sides<Option<Text>>,
) -> Seq<ConflictModel> {
    if resolve::resolution(resolutions, kind, semantic::dom_path(d, id as int), property) is Some {
        before
    } else {
        before.push(conflict_at(d, id, kind, property, labels))
    }
}

/// Decides a conflict, or reports it.
pub fn resolve_or_report(
    kind: ConflictKind,
    dom: &SemanticDom,
    id: usize,
    property: Option<&str>,
    labels: Sides<Option<String>>,
    resolutions: &Resolutions,
    conflicts: &mut Vec<Conflict>,
) -> (res: Option<Side>)
    requires
        id < dom@.len(),
    ensures
        res == resolve::resolution(
            resolutions@,
            kind,
            semantic::dom_path(dom@, id as int),
            crate::format::path_view(property),
        ),
        conflict::conflicts_view(final(conflicts)@) == reported(
            resolutions@,
            conflict::conflicts_view(old(conflicts)@),
            dom@,
            id,
            kind,
            crate::format::path_view(property),
            labels_view(labels),
        ),
{
    let path = dom.path(id);
    if let Some(side) = resolutions.lookup(kind, path.as_str(), property) {
        return Some(side);
    }
    let ghost before = conflict::conflicts_view(conflicts@);
    let conflict = node_conflict(kind, dom, id, property, labels);
    let ghost added = conflict@;
    conflicts.push(conflict);
    assert(conflict::conflicts_view(conflicts@) =~= before.push(added));
    None
}

impl<'a> MergeCtx<'a> {
    pub open spec fn wf(&self) -> bool {
        &&& self.base.wf()
        &&& self.ours.wf()
        &&& self.theirs.wf()
        &&& self@.wf()
    }

    /// The file of a source.
    pub fn file(&self, source: ValueSource) -> (res: Option<&'a SemanticDom>)
        requires
            self.wf(),
        ensures
            crate::display::file_view(res) == self@.file(source),
            res matches Some(d) ==> d.wf(),
    {
        match source {
            ValueSource::Base => Some(self.base),
            ValueSource::Ours => Some(self.ours),
            ValueSource::Theirs => Some(self.theirs),
            ValueSource::Merged => None,
        }
    }

    /// The row that a referent leads to.
    pub fn resolve_ref(&self, source: ValueSource, referent: u128) -> (res: Option<usize>)
        requires
            self.wf(),
        ensures
            res == self@.target(source, referent),
    {
        if referent == 0 {
            return None;
        }
        match self.file(source) {
            Some(d) => match d.node_for_ref(referent) {
                Some(node) => self.identities.lookup(source, node),
                None => None,
            },
            None => None,
        }
    }

    fn same_ref(&self, a: u128, a_source: ValueSource, b: u128, b_source: ValueSource) -> (res:
        bool)
        requires
            self.wf(),
        ensures
            res == self@.ref_equal(a, a_source, b, b_source),
    {
        if a == 0 || b == 0 {
            return a == 0 && b == 0;
        }
        match (self.resolve_ref(a_source, a), self.resolve_ref(b_source, b)) {
            (Some(x), Some(y)) => x == y,
            (None, None) => a == b,
            _ => false,
        }
    }

    /// Compares two values of different files.
    pub fn same_value(&self, a: &Value, a_source: ValueSource, b: &Value, b_source: ValueSource) -> (res:
        bool)
        requires
            self.wf(),
        ensures
            res == self@.value_equal(a@, a_source, b@, b_source),
        decreases value::height(a@),
    {
        match (a, b) {
            (Value::Ref(x), Value::Ref(y)) => self.same_ref(*x, a_source, *y, b_source),
            (Value::Object(x), Value::Object(y)) => self.same_ref(*x, a_source, *y, b_source),
            (Value::Attributes(x), Value::Attributes(y)) => {
                proof {
                    value::lemma_attributes_view(*a);
                    value::lemma_attributes_view(*b);
                }
                let ghost mx = keyed::view_list(x@);
                let ghost my = keyed::view_list(y@);
                if x.len() != y.len() {
                    return false;
                }
                let mut i: usize = 0;
                while i < x.len()
                    invariant
                        i <= x.len(),
                        self.wf(),
                        x.len() == y.len(),
                        mx == keyed::view_list(x@),
                        my == keyed::view_list(y@),
                        a@ == ValueModel::Attributes(mx),
                        b@ == ValueModel::Attributes(my),
                        forall|j: int|
                            0 <= j < i ==> (#[trigger] mx[j]).0 == my[j].0 && self@.value_equal(
                                mx[j].1,
                                a_source,
                                my[j].1,
                                b_source,
                            ),
                    decreases x.len() - i,
                {
                    proof {
                        value::lemma_height(mx, i as int);
                        assert(mx[i as int] == (x@[i as int].0@, x@[i as int].1@));
                        assert(my[i as int] == (y@[i as int].0@, y@[i as int].1@));
                    }
                    if !same_text(x[i].0.as_str(), y[i].0.as_str()) || !self.same_value(
                        &x[i].1,
                        a_source,
                        &y[i].1,
                        b_source,
                    ) {
                        assert(!(mx[i as int].0 == my[i as int].0 && self@.value_equal(
                            mx[i as int].1,
                            a_source,
                            my[i as int].1,
                            b_source,
                        )));
                        return false;
                    }
                    i += 1;
                }
                true
            },
            (Value::Leaf(x), Value::Leaf(y)) => same_leaf(x, y),
            _ => false,
        }
    }

    /// Compares two optional values of different files.
    pub fn same_option(
        &self,
        a: Option<&Value>,
        a_source: ValueSource,
        b: Option<&Value>,
        b_source: ValueSource,
    ) -> (res: bool)
        requires
            self.wf(),
        ensures
            res == self@.option_equal(option_view(a), a_source, option_view(b), b_source),
    {
        match (a, b) {
            (None, None) => true,
            (Some(x), Some(y)) => self.same_value(x, a_source, y, b_source),
            _ => false,
        }
    }

    /// The instances of a row.
    pub fn nodes(&self, entry: &MergeEntry) -> (res: Sides<Option<&'a SemanticInstance>>)
        requires
            entry_wf(self@, *entry),
        ensures
            nodes_view(res) == self@.nodes(*entry),
    {
        Sides {
            base: match entry.base {
                Some(i) => Some(self.base.node(i)),
                None => None,
            },
            ours: match entry.ours {
                Some(i) => Some(self.ours.node(i)),
                None => None,
            },
            theirs: match entry.theirs {
                Some(i) => Some(self.theirs.node(i)),
                None => None,
            },
        }
    }

    /// The file and the instance that a conflict about a row is reported at.
    pub fn conflict_subject(&self, entry: &MergeEntry) -> (res: (&'a SemanticDom, usize))
        requires
            self.wf(),
            entry_wf(self@, *entry),
        ensures
            res.0.wf(),
            res.0@ == self@.subject(*entry).0,
            res.1 == self@.subject(*entry).1,
            res.1 < res.0@.len(),
    {
        if let Some(id) = entry.ours {
            (self.ours, id)
        } else if let Some(id) = entry.theirs {
            (self.theirs, id)
        } else if let Some(id) = entry.base {
            (self.base, id)
        } else {
            (self.base, 0)
        }
    }

    /// The parents of a row on the three sides, as rows.
    pub fn side_parents(&self, entry: &MergeEntry) -> (res: Sides<Option<usize>>)
        requires
            entry_wf(self@, *entry),
        ensures
            res == self@.parents(*entry),
    {
        let nodes = self.nodes(entry);
        Sides {
            base: self.parent_of(nodes.base, ValueSource::Base),
            ours: self.parent_of(nodes.ours, ValueSource::Ours),
            theirs: self.parent_of(nodes.theirs, ValueSource::Theirs),
        }
    }

    pub fn parent_of(&self, node: Option<&SemanticInstance>, source: ValueSource) -> (res: Option<
        usize,
    >)
        ensures
            res == self@.parent_row(instance_view(node), source),
    {
        match node {
            Some(node) => match node.parent {
                Some(p) => self.identities.lookup(source, p),
                None => None,
            },
            None => None,
        }
    }

    /// The path that a row is shown with.
    pub fn parent_label(&self, row: usize) -> (res: String)
        requires
            self.wf(),
            row < self@.rows.entries.len(),
        ensures
            res@ == self@.subject_path(self@.rows.entries[row as int]),
    {
        proof {
            lemma_entry_wf(self@, row as int);
        }
        let entry = self.identities.entry(row);
        let (dom, id): (&SemanticDom, usize) = self.conflict_subject(&entry);
        dom.path(id)
    }
}

/// The view of an optional value.
pub open spec fn option_view(v: Option<&Value>) -> Option<ValueModel> {
    match v {
        Some(v) => Some(v@),
        None => None,
    }
}

/// The view of an optional instance.
pub open spec fn instance_view(v: Option<&SemanticInstance>) -> Option<InstanceModel> {
    match v {
        Some(v) => Some(v@),
        None => None,
    }
}

pub open spec fn nodes_view(s: Sides<Option<&SemanticInstance>>) -> Sides<Option<InstanceModel>> {
    Sides {
        base: instance_view(s.base),
        ours: instance_view(s.ours),
        theirs: instance_view(s.theirs),
    }
}

/// The parent rows of a row are rows.
pub proof fn lemma_parents(ctx: Ctx, entry: MergeEntry)
    requires
        ctx.wf(),
        entry_wf(ctx, entry),
    ensures
        ctx.parents(entry).base matches Some(p) ==> p < ctx.rows.entries.len(),
        ctx.parents(entry).ours matches Some(p) ==> p < ctx.rows.entries.len(),
        ctx.parents(entry).theirs matches Some(p) ==> p < ctx.rows.entries.len(),
{
    if let Some(i) = entry.base {
        if i > 0 {
            crate::matching::lemma_is_child(ctx.base, i as int);
        }
    }
    if let Some(i) = entry.ours {
        if i > 0 {
            crate::matching::lemma_is_child(ctx.ours, i as int);
            assert(ctx.rows.ours_rows[ctx.ours[i as int].parent->0 as int]
                < ctx.rows.entries.len());
        }
    }
    if let Some(i) = entry.theirs {
        if i > 0 {
            crate::matching::lemma_is_child(ctx.theirs, i as int);
            assert(ctx.rows.theirs_rows[ctx.theirs[i as int].parent->0 as int]
                < ctx.rows.entries.len());
        }
    }
}

} // verus!
