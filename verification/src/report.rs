//! The editable report of conflicts, and the lines that a merge is remarked on
//! with.

use vstd::prelude::*;

use crate::conflict;
use crate::conflict::{Conflict, ConflictKind, ConflictModel, DisplayValue};
use crate::diagnostics;
use crate::diagnostics::{Diagnostic, DiagnosticModel, DiagnosticSeverity};
use crate::resolve::{Resolutions, ResolutionsModel, Side};
use crate::scan;
use crate::scan::{find_from, is_text, part, split_at_pattern, split_lines, trimmed};
use crate::text;
use crate::text::{chars_of, decimal_string, string_of, Text};

verus! {

// ---------------------------------------------------------------------------
// Writing the report
// ---------------------------------------------------------------------------

/// The lines that the report starts with.
pub open spec fn report_header() -> Text {
    "# rbx-merge conflict report\n# Set `resolution` for each conflict to one of: ours, theirs, base\n# Then re-run the same merge with --resolutions <this file>.\n# For RefTarget and UniqueIdCollision the side is not used: any value\n# applies the fix (drop the dangling reference / the duplicate UniqueId).\n\n"@
}

/// One line of the report.
pub open spec fn field(key: Text, value: Text) -> Text {
    key + " = "@ + value + "\n"@
}

/// A line of the report that may be missing.
pub open spec fn optional_field(key: Text, value: Option<Text>) -> Text {
    match value {
        Some(v) => field(key, v),
        None => Seq::empty(),
    }
}

/// How a property is named in the report.
pub open spec fn property_word(property: Option<Text>) -> Text {
    match property {
        Some(p) => p,
        None => "<none>"@,
    }
}

/// The lines of a conflict behind the line that marks it.
pub open spec fn conflict_body(c: ConflictModel, word: Text) -> Text {
    "\n"@ + field("kind"@, conflict::kind_name(c.kind)) + field("path"@, c.path) + field(
        "property"@,
        property_word(c.property),
    ) + optional_field("base"@, c.base) + optional_field("ours"@, c.ours) + optional_field(
        "theirs"@,
        c.theirs,
    ) + field("resolution"@, word) + "\n"@
}

/// The line that marks a conflict.
pub open spec fn conflict_marker() -> Text {
    "[[conflict]]"@
}

/// The first `n` conflicts of the report, all of them decided alike.
pub open spec fn report_blocks(list: Seq<ConflictModel>, word: Text, n: int) -> Text
    decreases n,
{
    if n <= 0 {
        Seq::empty()
    } else {
        report_blocks(list, word, n - 1) + conflict_marker() + conflict_body(list[n - 1], word)
    }
}

/// The report with all conflicts decided alike.
pub open spec fn report_with(list: Seq<ConflictModel>, word: Text) -> Text {
    report_header() + report_blocks(list, word, list.len() as int)
}

fn push_field(out: &mut String, key: &str, value: &str)
    ensures
        final(out)@ == old(out)@ + field(key@, value@),
{
    let ghost before = out@;
    out.append(key);
    out.append(" = ");
    out.append(value);
    out.append("\n");
    assert(out@ =~= before + field(key@, value@));
}

fn push_optional(out: &mut String, key: &str, value: &Option<DisplayValue>)
    ensures
        final(out)@ == old(out)@ + optional_field(key@, conflict::option_display(*value)),
{
    match value {
        Some(v) => push_field(out, key, v.text.as_str()),
        None => {
            assert(out@ + Seq::<char>::empty() =~= out@);
        },
    }
}

fn push_conflict(out: &mut String, c: &Conflict)
    ensures
        final(out)@ == old(out)@ + conflict_marker() + conflict_body(c@, "unresolved"@),
{
    let ghost before = out@;
    out.append("[[conflict]]");
    out.append("\n");
    push_field(out, "kind", c.kind.name());
    push_field(out, "path", c.path.as_str());
    match &c.property {
        Some(p) => push_field(out, "property", p.as_str()),
        None => push_field(out, "property", "<none>"),
    }
    push_optional(out, "base", &c.base);
    push_optional(out, "ours", &c.ours);
    push_optional(out, "theirs", &c.theirs);
    push_field(out, "resolution", "unresolved");
    out.append("\n");
    assert(out@ =~= before + conflict_marker() + conflict_body(c@, "unresolved"@));
}

/// Writes conflicts as a report in which a side can be chosen for each.
pub fn write_conflict_report(conflicts: &Vec<Conflict>) -> (res: String)
    ensures
        res@ == report_with(conflict::conflicts_view(conflicts@), "unresolved"@),
{
    let ghost list = conflict::conflicts_view(conflicts@);
    let mut out =
        "# rbx-merge conflict report\n# Set `resolution` for each conflict to one of: ours, theirs, base\n# Then re-run the same merge with --resolutions <this file>.\n# For RefTarget and UniqueIdCollision the side is not used: any value\n# applies the fix (drop the dangling reference / the duplicate UniqueId).\n\n".to_owned();
    let mut i: usize = 0;
    assert(report_header() + report_blocks(list, "unresolved"@, 0) =~= report_header());
    while i < conflicts.len()
        invariant
            i <= conflicts.len(),
            list == conflict::conflicts_view(conflicts@),
            out@ == report_header() + report_blocks(list, "unresolved"@, i as int),
        decreases conflicts.len() - i,
    {
        let ghost before = report_blocks(list, "unresolved"@, i as int);
        assert(list[i as int] == conflicts@[i as int]@);
        push_conflict(&mut out, &conflicts[i]);
        assert(out@ =~= report_header() + (before + conflict_marker() + conflict_body(
            list[i as int],
            "unresolved"@,
        )));
        i += 1;
    }
    out
}

// ---------------------------------------------------------------------------
// Reading the report
// ---------------------------------------------------------------------------

/// The side of a name.
pub open spec fn named_side(name: Text) -> Option<Side> {
    if name == "ours"@ {
        Some(Side::Ours)
    } else if name == "theirs"@ {
        Some(Side::Theirs)
    } else if name == "base"@ {
        Some(Side::Base)
    } else {
        None
    }
}

/// What was read of a conflict.
#[verifier::ext_equal]
pub ghost struct Fields {
    pub kind: Option<ConflictKind>,
    pub path: Option<Text>,
    pub property: Option<Text>,
    pub side: Option<Side>,
}

/// Nothing read yet.
pub open spec fn no_fields() -> Fields {
    Fields { kind: None, path: None, property: None, side: None }
}

/// What a value says under a key. Keys that are not known say nothing.
pub open spec fn with_value(f: Fields, key: Text, value: Text) -> Fields {
    if key == "kind"@ {
        Fields { kind: conflict::named_kind(value), ..f }
    } else if key == "path"@ {
        Fields { path: Some(value), ..f }
    } else if key == "property"@ {
        Fields {
            property: if value == "<none>"@ || value.len() == 0 {
                None
            } else {
                Some(value)
            },
            ..f
        }
    } else if key == "resolution"@ {
        Fields { side: named_side(value), ..f }
    } else {
        f
    }
}

/// What a line says. An empty line, a comment and a line without an equals sign say
/// nothing.
pub open spec fn with_line(f: Fields, line: Text) -> Fields {
    let line = scan::trim(line);
    if line.len() == 0 || line[0] == '#' {
        f
    } else {
        match scan::find(line, "="@, 0) {
            Some(i) => with_value(
                f,
                scan::trim(line.take(i)),
                scan::trim(line.skip(i + "="@.len())),
            ),
            None => f,
        }
    }
}

/// What lines say.
pub open spec fn with_lines(f: Fields, list: Seq<Text>) -> Fields
    decreases list.len(),
{
    if list.len() == 0 {
        f
    } else {
        with_line(with_lines(f, list.drop_last()), list.last())
    }
}

/// The decisions after a conflict was read: one more, where its kind, its path and a
/// side are there.
pub open spec fn with_fields(r: ResolutionsModel, f: Fields) -> ResolutionsModel {
    match (f.kind, f.path, f.side) {
        (Some(kind), Some(path), Some(side)) => ResolutionsModel {
            default: r.default,
            overrides: r.overrides.insert((kind, path, f.property), side),
        },
        _ => r,
    }
}

/// The decisions after the first `n` parts of a report; the first part stands before
/// the first conflict.
pub open spec fn with_parts(r: ResolutionsModel, parts: Seq<Text>, n: int) -> ResolutionsModel
    decreases n,
{
    if n <= 1 {
        r
    } else {
        with_fields(
            with_parts(r, parts, n - 1),
            with_lines(no_fields(), scan::lines(parts[n - 1])),
        )
    }
}

/// The decisions that a report adds.
pub open spec fn with_report(r: ResolutionsModel, report: Text) -> ResolutionsModel {
    let parts = scan::split_by(report, conflict_marker());
    with_parts(r, parts, parts.len() as int)
}

fn parse_side(value: &Vec<char>) -> (res: Option<Side>)
    ensures
        res == named_side(value@),
{
    if is_text(value, "ours") {
        Some(Side::Ours)
    } else if is_text(value, "theirs") {
        Some(Side::Theirs)
    } else if is_text(value, "base") {
        Some(Side::Base)
    } else {
        None
    }
}

/// What was read of a conflict.
struct Entry {
    kind: Option<ConflictKind>,
    path: Option<String>,
    property: Option<String>,
    side: Option<Side>,
}

impl Entry {
    spec fn model(self) -> Fields {
        Fields {
            kind: self.kind,
            path: diagnostics::option_text(self.path),
            property: diagnostics::option_text(self.property),
            side: self.side,
        }
    }
}

fn read_value(entry: Entry, key: &Vec<char>, value: &Vec<char>) -> (res: Entry)
    ensures
        res.model() == with_value(entry.model(), key@, value@),
{
    let mut entry = entry;
    if is_text(key, "kind") {
        let name = string_of(value);
        entry.kind = match ConflictKind::from_name(name.as_str()) {
            Ok(kind) => Some(kind),
            Err(_) => None,
        };
    } else if is_text(key, "path") {
        entry.path = Some(string_of(value));
    } else if is_text(key, "property") {
        entry.property = if is_text(value, "<none>") || value.len() == 0 {
            None
        } else {
            Some(string_of(value))
        };
    } else if is_text(key, "resolution") {
        entry.side = parse_side(value);
    }
    entry
}

fn read_line(entry: Entry, line: &Vec<char>) -> (res: Entry)
    ensures
        res.model() == with_line(entry.model(), line@),
{
    let line = trimmed(line);
    let _count: usize = line.len();
    if line.len() == 0 || line[0] == '#' {
        return entry;
    }
    let sign = chars_of("=");
    match find_from(&line, &sign, 0) {
        Some(i) => {
            let key = part(&line, 0, i);
            let value = part(&line, i + sign.len(), line.len());
            proof {
                assert(key@ =~= line@.take(i as int));
                assert(value@ =~= line@.skip(i + "="@.len()));
            }
            read_value(entry, &trimmed(&key), &trimmed(&value))
        },
        None => entry,
    }
}

fn read_block(block: &Vec<char>) -> (res: Entry)
    ensures
        res.model() == with_lines(no_fields(), scan::lines(block@)),
{
    let list = split_lines(block);
    let ghost all = scan::lines(block@);
    assert(all.len() == list@.len());
    let mut entry = Entry { kind: None, path: None, property: None, side: None };
    let mut i: usize = 0;
    assert(all.take(0) =~= Seq::<Text>::empty());
    while i < list.len()
        invariant
            i <= list.len(),
            all.len() == list@.len(),
            scan::texts_view(list@) == all,
            entry.model() == with_lines(no_fields(), all.take(i as int)),
        decreases list.len() - i,
    {
        assert(all[i as int] == list@[i as int]@);
        assert(all.take(i + 1).drop_last() =~= all.take(i as int));
        entry = read_line(entry, &list[i]);
        i += 1;
    }
    assert(all.take(all.len() as int) =~= all);
    entry
}

fn apply_entry(resolutions: Resolutions, entry: Entry) -> (res: Resolutions)
    ensures
        res@ == with_fields(resolutions@, entry.model()),
{
    match (entry.kind, entry.path, entry.side) {
        (Some(kind), Some(path), Some(side)) => resolutions.resolve(
            kind,
            path.as_str(),
            entry.property,
            side,
        ),
        _ => resolutions,
    }
}

/// Reads an edited report and adds the choices in it.
pub fn parse_resolutions(resolutions: Resolutions, report: &str) -> (res: Resolutions)
    ensures
        res@ == with_report(resolutions@, report@),
{
    let marker = chars_of("[[conflict]]");
    proof {
        reveal_strlit("[[conflict]]");
    }
    let chars = chars_of(report);
    let blocks = split_at_pattern(&chars, &marker);
    let ghost parts = scan::split_by(report@, conflict_marker());
    assert(parts.len() == blocks@.len());
    let ghost start = resolutions@;
    let mut resolutions = resolutions;
    let mut i: usize = 1;
    proof {
        lemma_some_part(report@, conflict_marker());
    }
    while i < blocks.len()
        invariant
            1 <= i <= blocks.len(),
            parts.len() == blocks@.len(),
            scan::texts_view(blocks@) == parts,
            resolutions@ == with_parts(start, parts, i as int),
        decreases blocks.len() - i,
    {
        assert(parts[i as int] == blocks@[i as int]@);
        let entry = read_block(&blocks[i]);
        resolutions = apply_entry(resolutions, entry);
        i += 1;
    }
    resolutions
}

proof fn lemma_some_part(s: Text, pat: Text)
    ensures
        scan::split_by(s, pat).len() > 0,
{
}

// ---------------------------------------------------------------------------
// Remarks
// ---------------------------------------------------------------------------

/// The name of a severity.
pub open spec fn severity_name(severity: DiagnosticSeverity) -> Text {
    match severity {
        DiagnosticSeverity::Info => "Info"@,
        DiagnosticSeverity::Warning => "Warning"@,
    }
}

/// The line that a remark is shown with.
pub open spec fn remark_line(d: DiagnosticModel) -> Text {
    let start = "diagnostic "@ + severity_name(d.severity) + " "@ + d.code + ": "@ + d.message;
    match d.path {
        Some(path) => start + " ("@ + path + ")"@,
        None => start,
    }
}

/// Writes the line that a remark is shown with.
pub fn diagnostic_line(diagnostic: &Diagnostic) -> (res: String)
    ensures
        res@ == remark_line(diagnostic@),
{
    let mut out = "diagnostic ".to_owned();
    match diagnostic.severity {
        DiagnosticSeverity::Info => out.append("Info"),
        DiagnosticSeverity::Warning => out.append("Warning"),
    }
    out.append(" ");
    out.append(diagnostic.code.as_str());
    out.append(": ");
    out.append(diagnostic.message.as_str());
    if let Some(path) = &diagnostic.path {
        out.append(" (");
        out.append(path.as_str());
        out.append(")");
    }
    out
}

/// A line with the value of a side, where there is one.
pub open spec fn value_line(label: Text, value: Option<Text>) -> Text {
    match value {
        Some(v) => "  "@ + label + ": "@ + v + "\n"@,
        None => Seq::empty(),
    }
}

/// The lines that a conflict is shown with.
pub open spec fn conflict_lines(c: ConflictModel) -> Text {
    "- kind="@ + conflict::kind_name(c.kind) + " path="@ + c.path + " class="@ + c.class
        + " name="@ + c.name + " property="@ + (match c.property {
        Some(p) => p,
        None => "<instance>"@,
    }) + "\n"@ + value_line("base"@, c.base) + value_line("ours"@, c.ours) + value_line(
        "theirs"@,
        c.theirs,
    )
}

/// The lines that the first `n` conflicts are shown with.
pub open spec fn conflicts_lines(list: Seq<ConflictModel>, n: int) -> Text
    decreases n,
{
    if n <= 0 {
        Seq::empty()
    } else {
        conflicts_lines(list, n - 1) + conflict_lines(list[n - 1])
    }
}

/// The text that conflicts are shown with: how many there are, then each of them.
pub open spec fn summary(list: Seq<ConflictModel>) -> Text {
    "semantic merge conflicts: "@ + text::decimal(list.len() as int) + "\n"@ + conflicts_lines(
        list,
        list.len() as int,
    )
}

fn push_value_line(out: &mut String, label: &str, value: &Option<DisplayValue>)
    ensures
        final(out)@ == old(out)@ + value_line(label@, conflict::option_display(*value)),
{
    let ghost before = out@;
    if let Some(v) = value {
        out.append("  ");
        out.append(label);
        out.append(": ");
        out.append(v.text.as_str());
        out.append("\n");
    }
    assert(out@ =~= before + value_line(label@, conflict::option_display(*value)));
}

fn write_conflict_lines(c: &Conflict) -> (res: String)
    ensures
        res@ == conflict_lines(c@),
{
    let mut out = "- kind=".to_owned();
    out.append(c.kind.name());
    out.append(" path=");
    out.append(c.path.as_str());
    out.append(" class=");
    out.append(c.class.as_str());
    out.append(" name=");
    out.append(c.name.as_str());
    out.append(" property=");
    match &c.property {
        Some(p) => out.append(p.as_str()),
        None => out.append("<instance>"),
    }
    out.append("\n");
    push_value_line(&mut out, "base", &c.base);
    push_value_line(&mut out, "ours", &c.ours);
    push_value_line(&mut out, "theirs", &c.theirs);
    out
}

/// Writes the text that conflicts are shown with.
pub fn conflict_summary(conflicts: &Vec<Conflict>) -> (res: String)
    ensures
        res@ == summary(conflict::conflicts_view(conflicts@)),
{
    let ghost list = conflict::conflicts_view(conflicts@);
    let mut out = "semantic merge conflicts: ".to_owned();
    out.append(decimal_string(conflicts.len() as i128).as_str());
    out.append("\n");
    let ghost start = out@;
    let mut i: usize = 0;
    assert(start + conflicts_lines(list, 0) =~= start);
    while i < conflicts.len()
        invariant
            i <= conflicts.len(),
            list == conflict::conflicts_view(conflicts@),
            out@ == start + conflicts_lines(list, i as int),
        decreases conflicts.len() - i,
    {
        let ghost before = conflicts_lines(list, i as int);
        assert(list[i as int] == conflicts@[i as int]@);
        out.append(write_conflict_lines(&conflicts[i]).as_str());
        assert(out@ =~= start + (before + conflict_lines(list[i as int])));
        i += 1;
    }
    out
}

/// What `diff` shows: two texts, each behind a line with its path.
pub open spec fn both_texts(old_path: Text, old: Text, new_path: Text, new: Text) -> Text {
    "--- "@ + old_path + "\n"@ + old + (if old.len() > 0 && old.last() == '\n' {
        Seq::empty()
    } else {
        "\n"@
    }) + "+++ "@ + new_path + "\n"@ + new
}

/// Writes two texts, each behind a line with its path.
pub fn show_both(old_path: &str, old: &str, new_path: &str, new: &str) -> (res: String)
    ensures
        res@ == both_texts(old_path@, old@, new_path@, new@),
{
    let chars = chars_of(old);
    let mut out = "--- ".to_owned();
    out.append(old_path);
    out.append("\n");
    out.append(old);
    if !(chars.len() > 0 && chars[chars.len() - 1] == '\n') {
        out.append("\n");
    }
    out.append("+++ ");
    out.append(new_path);
    out.append("\n");
    out.append(new);
    assert(out@ =~= both_texts(old_path@, old@, new_path@, new@));
    out
}

} // verus!
