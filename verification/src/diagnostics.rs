//! Diagnostics that accompany the result of a merge.

use vstd::prelude::*;

use crate::text;
use crate::text::{decimal_string, quote, Text};

verus! {

#[derive(Debug, Clone, Copy, PartialEq, Eq, Structural)]
pub enum DiagnosticSeverity {
    Info,
    Warning,
}

/// Something that the caller may want to look at.
#[derive(Debug, Clone, PartialEq, Eq)]
pub struct Diagnostic {
    pub severity: DiagnosticSeverity,
    pub code: String,
    pub message: String,
    pub path: Option<String>,
}

/// The mathematical counterpart of [`Diagnostic`].
#[verifier::ext_equal]
pub ghost struct DiagnosticModel {
    pub severity: DiagnosticSeverity,
    pub code: Text,
    pub message: Text,
    pub path: Option<Text>,
}

/// The characters of an optional string.
pub open spec fn option_text(s: Option<String>) -> Option<Text> {
    match s {
        Some(s) => Some(s@),
        None => None,
    }
}

impl View for Diagnostic {
    type V = DiagnosticModel;

    open spec fn view(&self) -> DiagnosticModel {
        DiagnosticModel {
            severity: self.severity,
            code: self.code@,
            message: self.message@,
            path: option_text(self.path),
        }
    }
}

pub open spec fn diagnostics_view(s: Seq<Diagnostic>) -> Seq<DiagnosticModel> {
    s.map_values(|d: Diagnostic| d@)
}

/// The remark that goes with every merge.
pub open spec fn metadata_model() -> DiagnosticModel {
    DiagnosticModel {
        severity: DiagnosticSeverity::Warning,
        code: "weak_dom_metadata"@,
        message: "WeakDom does not model every Roblox file-level metadata field; this prototype is semantic, not byte-perfect."@,
        path: None,
    }
}

pub fn metadata_diagnostic() -> (res: Diagnostic)
    ensures
        res@ == metadata_model(),
{
    Diagnostic {
        severity: DiagnosticSeverity::Warning,
        code: "weak_dom_metadata".to_owned(),
        message: "WeakDom does not model every Roblox file-level metadata field; this prototype is semantic, not byte-perfect.".to_owned(),
        path: None,
    }
}

/// A property of the merged file that the reflection database does not know. It
/// is preserved as it is.
pub open spec fn unknown_property_model(path: Text, class: Text, property: Text) -> DiagnosticModel {
    DiagnosticModel {
        severity: DiagnosticSeverity::Info,
        code: "unknown_property"@,
        message: "property "@ + text::quoted(property) + " on class "@ + text::quoted(class)
            + " is not in the reflection database; preserved as-is"@,
        path: Some(path),
    }
}

pub fn unknown_property_diagnostic(path: String, class: &str, property: &str) -> (res: Diagnostic)
    ensures
        res@ == unknown_property_model(path@, class@, property@),
{
    let mut message = "property ".to_owned();
    message.append(quote(property).as_str());
    message.append(" on class ");
    message.append(quote(class).as_str());
    message.append(" is not in the reflection database; preserved as-is");
    Diagnostic {
        severity: DiagnosticSeverity::Info,
        code: "unknown_property".to_owned(),
        message,
        path: Some(path),
    }
}

/// A reference of the base that is nil or gone in the merged file because its
/// target was deleted.
pub open spec fn dropped_reference_model(path: Text, property: Text, target: Text) -> DiagnosticModel {
    DiagnosticModel {
        severity: DiagnosticSeverity::Warning,
        code: "dropped_reference"@,
        message: "reference "@ + text::quoted(property)
            + " was dropped to nil because its target "@ + target + " was deleted in the merge"@,
        path: Some(path),
    }
}

pub fn dropped_reference_diagnostic(path: String, property: &str, target: &str) -> (res: Diagnostic)
    ensures
        res@ == dropped_reference_model(path@, property@, target@),
{
    let mut message = "reference ".to_owned();
    message.append(quote(property).as_str());
    message.append(" was dropped to nil because its target ");
    message.append(target);
    message.append(" was deleted in the merge");
    Diagnostic {
        severity: DiagnosticSeverity::Warning,
        code: "dropped_reference".to_owned(),
        message,
        path: Some(path),
    }
}

/// Siblings of the same name and class that were paired across sides by their
/// order.
pub open spec fn positional_identity_model(
    path: Text,
    class: Text,
    name: Text,
    count: int,
) -> DiagnosticModel {
    DiagnosticModel {
        severity: DiagnosticSeverity::Warning,
        code: "positional_identity"@,
        message: text::decimal(count) + " same-named "@ + text::quoted(name) + " ("@ + class
            + ") children without UniqueId were matched by position; identity may be wrong if siblings were reordered"@,
        path: Some(path),
    }
}

pub fn positional_identity_diagnostic(path: String, class: &str, name: &str, count: usize) -> (res:
    Diagnostic)
    ensures
        res@ == positional_identity_model(path@, class@, name@, count as int),
{
    let mut message = decimal_string(count as i128);
    message.append(" same-named ");
    message.append(quote(name).as_str());
    message.append(" (");
    message.append(class);
    message.append(") children without UniqueId were matched by position; identity may be wrong if siblings were reordered");
    Diagnostic {
        severity: DiagnosticSeverity::Warning,
        code: "positional_identity".to_owned(),
        message,
        path: Some(path),
    }
}

/// An instance that was recognised under a new name.
pub open spec fn renamed_instance_model(path: Text, class: Text, from: Text, to: Text) -> DiagnosticModel {
    DiagnosticModel {
        severity: DiagnosticSeverity::Warning,
        code: "renamed_instance"@,
        message: class + " "@ + text::quoted(from) + " was matched as a rename to "@
            + text::quoted(to)
            + " by structural similarity; identity may be wrong if it was deleted and another added"@,
        path: Some(path),
    }
}

pub fn renamed_instance_diagnostic(path: String, class: &str, from: &str, to: &str) -> (res:
    Diagnostic)
    ensures
        res@ == renamed_instance_model(path@, class@, from@, to@),
{
    let mut message = class.to_owned();
    message.append(" ");
    message.append(quote(from).as_str());
    message.append(" was matched as a rename to ");
    message.append(quote(to).as_str());
    message.append(" by structural similarity; identity may be wrong if it was deleted and another added");
    Diagnostic {
        severity: DiagnosticSeverity::Warning,
        code: "renamed_instance".to_owned(),
        message,
        path: Some(path),
    }
}

/// An addition on one side that might be one of several on the other; it was
/// taken to be distinct.
pub open spec fn ambiguous_identity_model(path: Text) -> DiagnosticModel {
    DiagnosticModel {
        severity: DiagnosticSeverity::Warning,
        code: "ambiguous_identity"@,
        message: "added instance matched multiple candidates across sides; treated as a distinct addition"@,
        path: Some(path),
    }
}

pub fn ambiguous_identity_diagnostic(path: String) -> (res: Diagnostic)
    ensures
        res@ == ambiguous_identity_model(path@),
{
    Diagnostic {
        severity: DiagnosticSeverity::Warning,
        code: "ambiguous_identity".to_owned(),
        message: "added instance matched multiple candidates across sides; treated as a distinct addition".to_owned(),
        path: Some(path),
    }
}

/// The format that the merged file was written in.
pub open spec fn output_format_model(label: Text, path: Option<Text>) -> DiagnosticModel {
    DiagnosticModel {
        severity: DiagnosticSeverity::Info,
        code: "output_format"@,
        message: "merged output encoded as "@ + label,
        path,
    }
}

pub fn output_format_diagnostic(label: &str, path: Option<String>) -> (res: Diagnostic)
    ensures
        res@ == output_format_model(label@, option_text(path)),
{
    let mut message = "merged output encoded as ".to_owned();
    message.append(label);
    Diagnostic {
        severity: DiagnosticSeverity::Info,
        code: "output_format".to_owned(),
        message,
        path,
    }
}

} // verus!
