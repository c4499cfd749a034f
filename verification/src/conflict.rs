//! Conflicts and the result of a merge.

use vstd::prelude::*;

use crate::diagnostics;
use crate::diagnostics::Diagnostic;
use crate::text::{same_text, Text};

verus! {

/// The full outcome of a merge.
#[derive(Debug, Clone, PartialEq, Eq)]
pub struct MergeReport {
    /// The merged file, present only when the merge was clean.
    pub merged: Option<Vec<u8>>,
    pub conflicts: Vec<Conflict>,
    pub diagnostics: Vec<Diagnostic>,
}

impl MergeReport {
    /// Whether no conflict was reported and a merged file is there.
    pub fn is_clean(&self) -> (res: bool)
        ensures
            res == (self.conflicts@.len() == 0 && self.merged is Some),
    {
        self.conflicts.len() == 0 && self.merged.is_some()
    }
}

/// What becomes of a report: a clean merge is written; else the conflicts are shown,
/// and where it is asked for also noted down and stashed, and the merge fails.
#[derive(Debug, Clone, Copy, PartialEq, Eq, Structural)]
pub struct MergePlan {
    /// Whether the merged file is written.
    pub write_out: bool,
    /// Whether the conflicts are shown.
    pub show_conflicts: bool,
    /// Whether the conflicts are noted down in a file.
    pub write_conflicts: bool,
    /// Whether the files are stashed.
    pub stash: bool,
    /// How the merge ends for the caller.
    pub exit_code: u8,
}

/// What becomes of a report, where a file for conflicts and a stash may be asked for.
pub open spec fn plan_of(clean: bool, conflicts_out: bool, stash: bool) -> MergePlan {
    MergePlan {
        write_out: clean,
        show_conflicts: !clean,
        write_conflicts: !clean && conflicts_out,
        stash: !clean && stash,
        exit_code: if clean {
            0
        } else {
            1
        },
    }
}

/// Plans what becomes of a report.
pub fn merge_plan(report: &MergeReport, conflicts_out: bool, stash: bool) -> (res: MergePlan)
    ensures
        res == plan_of(
            report.conflicts@.len() == 0 && report.merged is Some,
            conflicts_out,
            stash,
        ),
{
    let clean = report.is_clean();
    MergePlan {
        write_out: clean,
        show_conflicts: !clean,
        write_conflicts: !clean && conflicts_out,
        stash: !clean && stash,
        exit_code: if clean {
            0
        } else {
            1
        },
    }
}

#[derive(Debug, Clone, Copy, PartialEq, Eq, Hash, Structural)]
pub enum ConflictKind {
    InstanceIdentity,
    UniqueIdCollision,
    DeleteModify,
    PropertyValue,
    ParentMove,
    /// Instances were moved under one another, so that the merged parents form
    /// a loop which no tree can satisfy. Neither side has the loop.
    ParentCycle,
    ChildOrder,
    RefTarget,
}

/// The name of a kind in reports.
pub open spec fn kind_name(kind: ConflictKind) -> Text {
    match kind {
        ConflictKind::InstanceIdentity => "InstanceIdentity"@,
        ConflictKind::UniqueIdCollision => "UniqueIdCollision"@,
        ConflictKind::DeleteModify => "DeleteModify"@,
        ConflictKind::PropertyValue => "PropertyValue"@,
        ConflictKind::ParentMove => "ParentMove"@,
        ConflictKind::ParentCycle => "ParentCycle"@,
        ConflictKind::ChildOrder => "ChildOrder"@,
        ConflictKind::RefTarget => "RefTarget"@,
    }
}

/// The kind of a name.
pub open spec fn named_kind(name: Text) -> Option<ConflictKind> {
    if name == "InstanceIdentity"@ {
        Some(ConflictKind::InstanceIdentity)
    } else if name == "UniqueIdCollision"@ {
        Some(ConflictKind::UniqueIdCollision)
    } else if name == "DeleteModify"@ {
        Some(ConflictKind::DeleteModify)
    } else if name == "PropertyValue"@ {
        Some(ConflictKind::PropertyValue)
    } else if name == "ParentMove"@ {
        Some(ConflictKind::ParentMove)
    } else if name == "ParentCycle"@ {
        Some(ConflictKind::ParentCycle)
    } else if name == "ChildOrder"@ {
        Some(ConflictKind::ChildOrder)
    } else if name == "RefTarget"@ {
        Some(ConflictKind::RefTarget)
    } else {
        None
    }
}

/// A string that names no kind.
#[derive(Debug, Clone, Copy, PartialEq, Eq)]
pub struct ConflictKindParseError;

impl ConflictKindParseError {
    /// The message that the error is shown with.
    pub fn message(&self) -> (res: &'static str)
        ensures
            res@ == "unknown conflict kind"@,
    {
        "unknown conflict kind"
    }
}

impl ConflictKind {
    /// The stable name of the kind in reports.
    pub fn name(&self) -> (res: &'static str)
        ensures
            res@ == kind_name(*self),
    {
        match self {
            ConflictKind::InstanceIdentity => "InstanceIdentity",
            ConflictKind::UniqueIdCollision => "UniqueIdCollision",
            ConflictKind::DeleteModify => "DeleteModify",
            ConflictKind::PropertyValue => "PropertyValue",
            ConflictKind::ParentMove => "ParentMove",
            ConflictKind::ParentCycle => "ParentCycle",
            ConflictKind::ChildOrder => "ChildOrder",
            ConflictKind::RefTarget => "RefTarget",
        }
    }

    /// The kind of a name.
    pub fn from_name(value: &str) -> (res: Result<ConflictKind, ConflictKindParseError>)
        ensures
            match named_kind(value@) {
                Some(kind) => res == Ok::<ConflictKind, ConflictKindParseError>(kind),
                None => res is Err,
            },
    {
        if same_text(value, "InstanceIdentity") {
            Ok(ConflictKind::InstanceIdentity)
        } else if same_text(value, "UniqueIdCollision") {
            Ok(ConflictKind::UniqueIdCollision)
        } else if same_text(value, "DeleteModify") {
            Ok(ConflictKind::DeleteModify)
        } else if same_text(value, "PropertyValue") {
            Ok(ConflictKind::PropertyValue)
        } else if same_text(value, "ParentMove") {
            Ok(ConflictKind::ParentMove)
        } else if same_text(value, "ParentCycle") {
            Ok(ConflictKind::ParentCycle)
        } else if same_text(value, "ChildOrder") {
            Ok(ConflictKind::ChildOrder)
        } else if same_text(value, "RefTarget") {
            Ok(ConflictKind::RefTarget)
        } else {
            Err(ConflictKindParseError)
        }
    }
}

impl std::str::FromStr for ConflictKind {
    type Err = ConflictKindParseError;

    fn from_str(value: &str) -> (res: Result<Self, Self::Err>)
        ensures
            match named_kind(value@) {
                Some(kind) => res == Ok::<ConflictKind, ConflictKindParseError>(kind),
                None => res is Err,
            },
    {
        ConflictKind::from_name(value)
    }
}

/// Reading a kind's name gives the kind back.
pub proof fn law_kind_names_round_trip(kind: ConflictKind)
    ensures
        named_kind(kind_name(kind)) == Some(kind),
{
    reveal_strlit("InstanceIdentity");
    reveal_strlit("UniqueIdCollision");
    reveal_strlit("DeleteModify");
    reveal_strlit("PropertyValue");
    reveal_strlit("ParentMove");
    reveal_strlit("ParentCycle");
    reveal_strlit("ChildOrder");
    reveal_strlit("RefTarget");
    let a = "UniqueIdCollision"@;
    let b = "InstanceIdentity"@;
    assert(a.len() == 17 && b.len() == 16);
    assert("DeleteModify"@.len() == 12 && "PropertyValue"@.len() == 13);
    assert("ParentMove"@.len() == 10 && "ParentCycle"@.len() == 11);
    assert("ChildOrder"@.len() == 10 && "RefTarget"@.len() == 9);
    assert("ChildOrder"@[0] == 'C' && "ParentMove"@[0] == 'P');
}

/// Only the name of a kind reads as that kind.
pub proof fn law_named_kind_is_its_name(name: Text)
    requires
        named_kind(name) is Some,
    ensures
        kind_name(named_kind(name)->0) == name,
{
}

/// The text that a value is shown with.
#[derive(Debug, Clone, PartialEq, Eq)]
pub struct DisplayValue {
    pub text: String,
}

impl DisplayValue {
    pub fn new(text: String) -> (res: Self)
        ensures
            res.text == text,
    {
        DisplayValue { text }
    }
}

/// What the merge could not decide.
#[derive(Debug, Clone, PartialEq, Eq)]
pub struct Conflict {
    pub kind: ConflictKind,
    pub path: String,
    pub class: String,
    pub name: String,
    pub property: Option<String>,
    pub base: Option<DisplayValue>,
    pub ours: Option<DisplayValue>,
    pub theirs: Option<DisplayValue>,
}

/// The mathematical counterpart of [`Conflict`].
#[verifier::ext_equal]
pub ghost struct ConflictModel {
    pub kind: ConflictKind,
    pub path: Text,
    pub class: Text,
    pub name: Text,
    pub property: Option<Text>,
    pub base: Option<Text>,
    pub ours: Option<Text>,
    pub theirs: Option<Text>,
}

pub open spec fn option_display(v: Option<DisplayValue>) -> Option<Text> {
    match v {
        Some(v) => Some(v.text@),
        None => None,
    }
}

impl View for Conflict {
    type V = ConflictModel;

    open spec fn view(&self) -> ConflictModel {
        ConflictModel {
            kind: self.kind,
            path: self.path@,
            class: self.class@,
            name: self.name@,
            property: diagnostics::option_text(self.property),
            base: option_display(self.base),
            ours: option_display(self.ours),
            theirs: option_display(self.theirs),
        }
    }
}

pub open spec fn conflicts_view(s: Seq<Conflict>) -> Seq<ConflictModel> {
    s.map_values(|c: Conflict| c@)
}

} // verus!
