//! What is shown of a merge: every conflict with all that is known of it, every remark, and
//! how the merge ends.

use rbx_reflection::ReflectionDatabase;
use vstd::prelude::*;

use crate::conflict;
use crate::conflict::{ConflictKind, ConflictModel};
use crate::diagnostics::DiagnosticModel;
use crate::dom::Forest;
use crate::error;
use crate::error::ErrorModel;
use crate::files;
use crate::files::{ReportModel, Request};
use crate::format::FileFormat;
use crate::render_laws;
use crate::report;
use crate::text;
use crate::text::Text;

verus! {

/// The word for a kind of conflict.
pub open spec fn kind_word(kind: ConflictKind) -> Text {
    match kind {
        ConflictKind::InstanceIdentity => "InstanceIdentity"@,
        ConflictKind::UniqueIdCollision => "UniqueIdCollision"@,
        ConflictKind::DeleteModify => "DeleteModify"@,
        ConflictKind::PropertyValue => "PropertyValue"@,
        ConflictKind::ParentMove => "ParentMove"@,
        ConflictKind::ParentCycle => "ParentCycle"@,
        ConflictKind::ChildOrder => "ChildOrder"@,
        ConflictKind::RefTarget => "RefTarget"@,
    }
}

/// Kinds of conflicts are told apart by their words.
pub proof fn law_kinds_have_their_words(kind: ConflictKind, other: ConflictKind)
    ensures
        conflict::kind_name(kind) == kind_word(kind),
        conflict::named_kind(kind_word(kind)) == Some(kind),
        conflict::kind_name(kind) == conflict::kind_name(other) ==> kind == other,
{
    conflict::law_kind_names_round_trip(kind);
    conflict::law_kind_names_round_trip(other);
}

// ---------------------------------------------------------------------------
// Lines
// ---------------------------------------------------------------------------

/// Whether a text holds all of some lines.
pub open spec fn holds_all(t: Text, lines: Seq<Text>) -> bool {
    forall|k: int| 0 <= k < lines.len() ==> render_laws::has_line(t, #[trigger] lines[k])
}

proof fn lemma_step(t: Text, lines: Seq<Text>, piece: Text)
    requires
        holds_all(t, lines),
        render_laws::ends_lines(t),
        render_laws::ends_lines(piece),
    ensures
        holds_all(t + piece, lines.push(piece)),
        render_laws::ends_lines(t + piece),
{
    render_laws::lemma_ends(t, piece);
    render_laws::lemma_line_itself(piece);
    render_laws::lemma_line_behind(t, piece, piece);
    let more = lines.push(piece);
    assert forall|k: int| 0 <= k < more.len() implies render_laws::has_line(
        t + piece,
        #[trigger] more[k],
    ) by {
        if k < lines.len() {
            assert(more[k] == lines[k]);
            render_laws::lemma_line_before(t, piece, lines[k]);
        }
    }
}

proof fn lemma_behind(a: Text, b: Text, lines: Seq<Text>)
    requires
        holds_all(b, lines),
        render_laws::ends_lines(a),
    ensures
        holds_all(a + b, lines),
{
    assert forall|k: int| 0 <= k < lines.len() implies render_laws::has_line(
        a + b,
        #[trigger] lines[k],
    ) by {
        render_laws::lemma_line_behind(a, b, lines[k]);
    }
}

proof fn lemma_before(a: Text, b: Text, lines: Seq<Text>)
    requires
        holds_all(a, lines),
    ensures
        holds_all(a + b, lines),
{
    assert forall|k: int| 0 <= k < lines.len() implies render_laws::has_line(
        a + b,
        #[trigger] lines[k],
    ) by {
        render_laws::lemma_line_before(a, b, lines[k]);
    }
}

// ---------------------------------------------------------------------------
// The report of conflicts
// ---------------------------------------------------------------------------

/// A line of the report: a word and what it stands for.
pub open spec fn report_line(key: Text, value: Text) -> Text {
    key + seq![' ', '=', ' '] + value + seq!['\n']
}

/// A line of the report, or nothing where there is nothing to say.
pub open spec fn optional_line(key: Text, value: Option<Text>) -> Text {
    match value {
        Some(v) => report_line(key, v),
        None => Seq::empty(),
    }
}

/// The lines of a conflict in the report.
pub open spec fn report_lines(c: ConflictModel, word: Text) -> Seq<Text> {
    seq![
        report_line("kind"@, kind_word(c.kind)),
        report_line("path"@, c.path),
        report_line("property"@, if c.property is Some {
            c.property->0
        } else {
            "<none>"@
        }),
        optional_line("base"@, c.base),
        optional_line("ours"@, c.ours),
        optional_line("theirs"@, c.theirs),
        report_line("resolution"@, word),
    ]
}

proof fn lemma_field(key: Text, value: Text)
    ensures
        report::field(key, value) == report_line(key, value),
        render_laws::ends_lines(report_line(key, value)),
{
    render_laws::lemma_newline();
    reveal_strlit(" = ");
    assert(" = "@ =~= seq![' ', '=', ' ']);
}

proof fn lemma_optional(key: Text, value: Option<Text>)
    ensures
        report::optional_field(key, value) == optional_line(key, value),
        render_laws::ends_lines(optional_line(key, value)),
{
    if value is Some {
        lemma_field(key, value->0);
    }
}

#[verifier::rlimit(50)]
proof fn lemma_block(c: ConflictModel, word: Text)
    ensures
        holds_all(report::conflict_body(c, word), report_lines(c, word)),
        render_laws::ends_lines(report::conflict_body(c, word)),
{
    render_laws::lemma_newline();
    law_kinds_have_their_words(c.kind, c.kind);
    let property = report::property_word(c.property);
    lemma_field("kind"@, kind_word(c.kind));
    lemma_field("path"@, c.path);
    lemma_field("property"@, property);
    lemma_optional("base"@, c.base);
    lemma_optional("ours"@, c.ours);
    lemma_optional("theirs"@, c.theirs);
    lemma_field("resolution"@, word);
    let l0 = Seq::<Text>::empty();
    let t0 = "\n"@;
    let (p1, p2, p3) = (
        report_line("kind"@, kind_word(c.kind)),
        report_line("path"@, c.path),
        report_line("property"@, property),
    );
    let (p4, p5, p6) = (
        optional_line("base"@, c.base),
        optional_line("ours"@, c.ours),
        optional_line("theirs"@, c.theirs),
    );
    let p7 = report_line("resolution"@, word);
    lemma_step(t0, l0, p1);
    lemma_step(t0 + p1, l0.push(p1), p2);
    lemma_step(t0 + p1 + p2, l0.push(p1).push(p2), p3);
    lemma_step(t0 + p1 + p2 + p3, l0.push(p1).push(p2).push(p3), p4);
    lemma_step(t0 + p1 + p2 + p3 + p4, l0.push(p1).push(p2).push(p3).push(p4), p5);
    lemma_step(t0 + p1 + p2 + p3 + p4 + p5, l0.push(p1).push(p2).push(p3).push(p4).push(p5), p6);
    let l6 = l0.push(p1).push(p2).push(p3).push(p4).push(p5).push(p6);
    lemma_step(t0 + p1 + p2 + p3 + p4 + p5 + p6, l6, p7);
    assert(l6.push(p7) =~= report_lines(c, word));
    let t = t0 + p1 + p2 + p3 + p4 + p5 + p6 + p7;
    lemma_before(t, "\n"@, report_lines(c, word));
    render_laws::lemma_ends(t, "\n"@);
}

proof fn lemma_no_empty_line(c: ConflictModel, word: Text)
    ensures
        forall|k: int|
            0 <= k < report_lines(c, word).len() ==> (#[trigger] report_lines(c, word)[k]).len()
                == 0 || report_lines(c, word)[k][0] != '\n',
{
    reveal_strlit("kind");
    reveal_strlit("path");
    reveal_strlit("property");
    reveal_strlit("base");
    reveal_strlit("ours");
    reveal_strlit("theirs");
    reveal_strlit("resolution");
    assert(report_line("kind"@, kind_word(c.kind))[0] == 'k');
    assert(report_line("path"@, c.path)[0] == 'p');
    assert(report_line("property"@, report::property_word(c.property))[0] == 'p');
    if c.base is Some {
        assert(report_line("base"@, c.base->0)[0] == 'b');
    }
    if c.ours is Some {
        assert(report_line("ours"@, c.ours->0)[0] == 'o');
    }
    if c.theirs is Some {
        assert(report_line("theirs"@, c.theirs->0)[0] == 't');
    }
    assert(report_line("resolution"@, word)[0] == 'r');
}

/// The lines of a conflict behind the line that marks it.
proof fn lemma_marked(c: ConflictModel, word: Text, rest: Text)
    requires
        rest == report::conflict_body(c, word).skip(1),
    ensures
        report::conflict_marker() + report::conflict_body(c, word) == "[[conflict]]"@ + seq!['\n']
            + rest,
        holds_all(rest, report_lines(c, word)),
{
    render_laws::lemma_newline();
    lemma_block(c, word);
    lemma_no_empty_line(c, word);
    let body = report::conflict_body(c, word);
    assert(body.len() > 0 && body[0] == '\n');
    assert(body =~= seq!['\n'] + rest);
    lemma_tail_lines(body, rest, report_lines(c, word));
    assert(report::conflict_marker() + body =~= "[[conflict]]"@ + seq!['\n'] + rest);
}

#[verifier::rlimit(50)]
proof fn lemma_blocks(list: Seq<ConflictModel>, word: Text, n: int, i: int)
    requires
        0 <= i < n <= list.len(),
    ensures
        holds_all(report::report_blocks(list, word, n), report_lines(list[i], word)),
        render_laws::has_line(
            report::report_blocks(list, word, n),
            "[[conflict]]"@ + seq!['\n'],
        ),
    decreases n,
{
    let before = report::report_blocks(list, word, n - 1);
    let rest = report::conflict_body(list[n - 1], word).skip(1);
    let mark = "[[conflict]]"@ + seq!['\n'];
    let all = report::report_blocks(list, word, n);
    lemma_blocks_end(list, word, n - 1);
    lemma_marked(list[n - 1], word, rest);
    assert(all =~= before + (report::conflict_marker() + report::conflict_body(
        list[n - 1],
        word,
    )));
    assert(all == before + (mark + rest));
    render_laws::lemma_line_itself(mark);
    render_laws::lemma_line_before(mark, rest, mark);
    render_laws::lemma_line_behind(before, mark + rest, mark);
    if i == n - 1 {
        lemma_behind(mark, rest, report_lines(list[i], word));
        lemma_behind(before, mark + rest, report_lines(list[i], word));
    } else {
        lemma_blocks(list, word, n - 1, i);
        lemma_before(before, mark + rest, report_lines(list[i], word));
    }
}

proof fn lemma_tail_lines(t: Text, rest: Text, lines: Seq<Text>)
    requires
        t == seq!['\n'] + rest,
        holds_all(t, lines),
        forall|k: int| 0 <= k < lines.len() ==> (#[trigger] lines[k]).len() == 0 || lines[k][0] != '\n',
    ensures
        holds_all(rest, lines),
{
    assert forall|k: int| 0 <= k < lines.len() implies render_laws::has_line(
        rest,
        #[trigger] lines[k],
    ) by {
        let line = lines[k];
        let n = choose|n: int| render_laws::line_at(t, line, n);
        if line.len() == 0 {
            assert(rest.subrange(0, 0) =~= line);
            assert(render_laws::line_at(rest, line, 0));
        } else {
            if n == 0 {
                assert(t.subrange(0, line.len() as int)[0] == t[0]);
            }
            assert(rest.subrange(n - 1, n - 1 + line.len()) =~= t.subrange(n, n + line.len()));
            if n > 1 {
                assert(rest[n - 2] == t[n - 1]);
            }
            assert(render_laws::line_at(rest, line, n - 1));
        }
    }
}

proof fn lemma_blocks_end(list: Seq<ConflictModel>, word: Text, n: int)
    requires
        n <= list.len(),
    ensures
        render_laws::ends_lines(report::report_blocks(list, word, n)),
    decreases n,
{
    if n > 0 {
        lemma_block(list[n - 1], word);
        let t = report::report_blocks(list, word, n);
        let body = report::conflict_body(list[n - 1], word);
        render_laws::lemma_newline();
        assert(body.len() > 0);
        assert(t.last() == body.last());
    }
}

/// Every conflict is in the report, with its kind, its path, its property, what the three
/// sides have, and how it is decided, each on a line of its own.
#[verifier::rlimit(50)]
pub proof fn law_report_shows_every_conflict(list: Seq<ConflictModel>, word: Text, i: int)
    requires
        0 <= i < list.len(),
    ensures
        holds_all(report::report_with(list, word), report_lines(list[i], word)),
        render_laws::has_line(
            report::report_with(list, word),
            "[[conflict]]"@ + seq!['\n'],
        ),
{
    let n = list.len() as int;
    lemma_blocks(list, word, n, i);
    let head = report::report_header();
    assert(render_laws::ends_lines(head)) by {
        reveal_strlit(
            "# rbx-merge conflict report\n# Set `resolution` for each conflict to one of: ours, theirs, base\n# Then re-run the same merge with --resolutions <this file>.\n# For RefTarget and UniqueIdCollision the side is not used: any value\n# applies the fix (drop the dangling reference / the duplicate UniqueId).\n\n",
        );
    }
    lemma_behind(head, report::report_blocks(list, word, n), report_lines(list[i], word));
    render_laws::lemma_line_behind(
        head,
        report::report_blocks(list, word, n),
        "[[conflict]]"@ + seq!['\n'],
    );
}

// ---------------------------------------------------------------------------
// Conflicts on the screen
// ---------------------------------------------------------------------------

/// A line with what a side has, or nothing where it has nothing.
pub open spec fn side_line(label: Text, value: Option<Text>) -> Text {
    match value {
        Some(v) => seq![' ', ' '] + label + seq![':', ' '] + v + seq!['\n'],
        None => Seq::empty(),
    }
}

/// The lines of a conflict on the screen.
pub open spec fn screen_lines(c: ConflictModel) -> Seq<Text> {
    seq![
        "- kind="@ + kind_word(c.kind) + " path="@ + c.path + " class="@ + c.class + " name="@
            + c.name + " property="@ + (if c.property is Some {
            c.property->0
        } else {
            "<instance>"@
        }) + seq!['\n'],
        side_line("base"@, c.base),
        side_line("ours"@, c.ours),
        side_line("theirs"@, c.theirs),
    ]
}

proof fn lemma_side_line(label: Text, value: Option<Text>)
    ensures
        report::value_line(label, value) == side_line(label, value),
        render_laws::ends_lines(side_line(label, value)),
{
    render_laws::lemma_newline();
    reveal_strlit("  ");
    reveal_strlit(": ");
    assert("  "@ =~= seq![' ', ' ']);
    assert(": "@ =~= seq![':', ' ']);
}

#[verifier::rlimit(50)]
proof fn lemma_screen(c: ConflictModel)
    ensures
        holds_all(report::conflict_lines(c), screen_lines(c)),
        render_laws::ends_lines(report::conflict_lines(c)),
{
    render_laws::lemma_newline();
    law_kinds_have_their_words(c.kind, c.kind);
    lemma_side_line("base"@, c.base);
    lemma_side_line("ours"@, c.ours);
    lemma_side_line("theirs"@, c.theirs);
    let l0 = Seq::<Text>::empty();
    let t0 = Seq::<char>::empty();
    let p1 = screen_lines(c)[0];
    let (p2, p3, p4) = (
        side_line("base"@, c.base),
        side_line("ours"@, c.ours),
        side_line("theirs"@, c.theirs),
    );
    assert(t0 + p1 =~= p1);
    assert(p1.last() == '\n');
    lemma_step(t0, l0, p1);
    lemma_step(p1, l0.push(p1), p2);
    lemma_step(p1 + p2, l0.push(p1).push(p2), p3);
    lemma_step(p1 + p2 + p3, l0.push(p1).push(p2).push(p3), p4);
    assert(l0.push(p1).push(p2).push(p3).push(p4) =~= screen_lines(c));
    assert(report::conflict_lines(c) == p1 + p2 + p3 + p4);
}

proof fn lemma_screens(list: Seq<ConflictModel>, n: int)
    requires
        n <= list.len(),
    ensures
        render_laws::ends_lines(report::conflicts_lines(list, n)),
        forall|i: int|
            0 <= i < n ==> holds_all(
                report::conflicts_lines(list, n),
                screen_lines(#[trigger] list[i]),
            ),
    decreases n,
{
    if n > 0 {
        let a = report::conflicts_lines(list, n - 1);
        let b = report::conflict_lines(list[n - 1]);
        lemma_screens(list, n - 1);
        lemma_screen(list[n - 1]);
        render_laws::lemma_ends(a, b);
        assert forall|i: int| 0 <= i < n implies holds_all(
            report::conflicts_lines(list, n),
            screen_lines(#[trigger] list[i]),
        ) by {
            if i == n - 1 {
                lemma_behind(a, b, screen_lines(list[i]));
            } else {
                lemma_before(a, b, screen_lines(list[i]));
            }
        }
    }
}

/// What is shown of conflicts says how many there are, and of each its kind, path, class,
/// name and property on one line, and what each side has on lines behind it.
pub proof fn law_every_conflict_is_shown(list: Seq<ConflictModel>, i: int)
    requires
        0 <= i < list.len(),
    ensures
        render_laws::has_line(
            report::summary(list),
            "semantic merge conflicts: "@ + text::decimal(list.len() as int) + seq!['\n'],
        ),
        holds_all(report::summary(list), screen_lines(list[i])),
{
    let n = list.len() as int;
    render_laws::lemma_newline();
    lemma_screens(list, n);
    let head = "semantic merge conflicts: "@ + text::decimal(n) + "\n"@;
    let rest = report::conflicts_lines(list, n);
    assert(head.last() == '\n');
    render_laws::lemma_line_itself(head);
    render_laws::lemma_line_before(head, rest, head);
    lemma_behind(head, rest, screen_lines(list[i]));
}

/// A remark is shown by the word of its severity, its code and its message, and its path in
/// brackets where it has one. So are remarks of different severities told apart.
pub proof fn law_remark_is_shown(d: DiagnosticModel)
    ensures
        ({
            let word = if d.severity is Info {
                "Info"@
            } else {
                "Warning"@
            };
            let t = report::remark_line(d);
            let start = "diagnostic "@ + word + seq![' '] + d.code + seq![':', ' '] + d.message;
            &&& d.path is None ==> t == start
            &&& d.path is Some ==> t == start + seq![' ', '('] + d.path->0 + seq![')']
        }),
        "Info"@.len() != "Warning"@.len(),
{
    reveal_strlit(" ");
    reveal_strlit(": ");
    reveal_strlit(" (");
    reveal_strlit(")");
    reveal_strlit("Info");
    reveal_strlit("Warning");
    assert(" "@ =~= seq![' ']);
    assert(": "@ =~= seq![':', ' ']);
    assert(" ("@ =~= seq![' ', '(']);
    assert(")"@ =~= seq![')']);
}

/// A merge ends well just where its result is written; only else conflicts are shown, and
/// noted down and stashed where that is asked for.
pub proof fn law_plan_writes_or_shows(clean: bool, out: bool, stash: bool)
    ensures
        ({
            let plan = conflict::plan_of(clean, out, stash);
            &&& plan.write_out <==> plan.exit_code == 0
            &&& plan.write_out <==> clean
            &&& plan.show_conflicts <==> !plan.write_out
            &&& plan.write_conflicts <==> out && !plan.write_out
            &&& plan.stash <==> stash && !plan.write_out
            &&& plan.exit_code <= 1
        }),
{
}

/// The message of an error says what failed, on which format, and why.
pub proof fn law_error_says_what_failed(format: FileFormat, why: Text, path: Text)
    ensures
        error::error_text(ErrorModel::Decode(format, why)) == "failed to decode "@
            + format_words(format) + seq![':', ' '] + why,
        error::error_text(ErrorModel::Encode(format, why)) == "failed to encode "@
            + format_words(format) + seq![':', ' '] + why,
        error::error_text(ErrorModel::Internal(why)) == why,
        error::error_text(error::unknown_format(Some(path)))
            == "could not detect Roblox file format for "@ + path,
        error::error_text(error::unknown_format(None)) == "could not detect Roblox file format"@,
{
    reveal_strlit(": ");
    reveal_strlit(" for ");
    reveal_strlit("could not detect Roblox file format");
    reveal_strlit("could not detect Roblox file format for ");
    assert(": "@ =~= seq![':', ' ']);
    assert("could not detect Roblox file format"@ + (" for "@ + path)
        =~= "could not detect Roblox file format for "@ + path);
    assert("could not detect Roblox file format"@ + Seq::<char>::empty()
        =~= "could not detect Roblox file format"@);
}

/// What a format is called.
pub open spec fn format_words(format: FileFormat) -> Text {
    match format {
        FileFormat::BinaryModel => "binary model (.rbxm)"@,
        FileFormat::BinaryPlace => "binary place (.rbxl)"@,
        FileFormat::XmlModel => "XML model (.rbxmx)"@,
        FileFormat::XmlPlace => "XML place (.rbxlx)"@,
    }
}

/// Of two texts, each stands whole behind a line with its path; the second starts on a line
/// of its own.
pub proof fn law_both_texts_are_shown(old_path: Text, old_text: Text, new_path: Text, new: Text)
    ensures
        ({
            let t = report::both_texts(old_path, old_text, new_path, new);
            let first = "--- "@ + old_path + seq!['\n'] + old_text;
            let second = "+++ "@ + new_path + seq!['\n'] + new;
            &&& first.is_prefix_of(t)
            &&& second.is_suffix_of(t)
            &&& t == first + second || (t == first + seq!['\n'] + second && !(old_text.len() > 0
                && old_text.last() == '\n'))
            &&& t == first + second ==> old_text.len() > 0 && old_text.last() == '\n'
        }),
{
    render_laws::lemma_newline();
    let t = report::both_texts(old_path, old_text, new_path, new);
    let first = "--- "@ + old_path + seq!['\n'] + old_text;
    let second = "+++ "@ + new_path + seq!['\n'] + new;
    if old_text.len() > 0 && old_text.last() == '\n' {
        assert(t =~= first + second);
    } else {
        assert(t =~= first + seq!['\n'] + second);
        assert(t.len() == first.len() + second.len() + 1);
    }
    assert(first =~= t.subrange(0, first.len() as int));
    assert(second =~= t.subrange(t.len() - second.len(), t.len() as int));
}

/// A merge that is written ends with the remark on the format that it is written in; what
/// was remarked on before stays before it.
pub proof fn law_written_format_is_remarked_on(
    tree: Forest,
    request: Request,
    db: ReflectionDatabase<'static>,
    remarks: Seq<DiagnosticModel>,
    report: ReportModel,
)
    requires
        files::written(tree, request, db, remarks, Ok(report)),
    ensures
        report.merged is Some,
        report.conflicts.len() == 0,
        report.diagnostics.len() == remarks.len() + 1,
        report.diagnostics.drop_last() == remarks,
        report.diagnostics.last().severity is Info,
        report.diagnostics.last().code == "output_format"@,
        report.diagnostics.last().path == request.path,
        report.diagnostics.last().message == "merged output encoded as "@ + format_words(
            request.format,
        ),
{
    assert(report.diagnostics.drop_last() =~= remarks);
}

} // verus!
