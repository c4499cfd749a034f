//! Conflict reports, and merges through them.

use rbx_merge::report::{
    conflict_summary, diagnostic_line, parse_resolutions, show_both, write_conflict_report,
};
use rbx_merge::merge_plan;
use rbx_merge::{
    merge, merge_files, textconv, Conflict, ConflictKind, DisplayValue, Error, FileInput,
    MergeInput, MergeOptions, MergeReport, MergeSettings, Resolutions, Side, TextconvOptions,
};

fn intvalue_model(name: &str, value: i64) -> String {
    format!(
        "<roblox version=\"4\">\n  <Item class=\"IntValue\" referent=\"RBX0\">\n    \
         <Properties>\n      <string name=\"Name\">{name}</string>\n      \
         <int64 name=\"Value\">{value}</int64>\n    </Properties>\n  </Item>\n</roblox>\n"
    )
}

fn merge_values(values: [i64; 3], resolutions: Resolutions) -> MergeReport {
    let [base, ours, theirs] = values.map(|value| intvalue_model("Counter", value));
    merge_files(
        FileInput::new(base.as_bytes()).with_path_hint("model.rbxmx"),
        FileInput::new(ours.as_bytes()).with_path_hint("model.rbxmx"),
        FileInput::new(theirs.as_bytes()).with_path_hint("model.rbxmx"),
        MergeSettings { resolutions, ..Default::default() },
    )
    .expect("merge")
}

fn rendered(report: &MergeReport) -> String {
    let merged = report.merged.as_ref().expect("merged");
    textconv(merged, Some("model.rbxmx"), TextconvOptions::default()).expect("textconv")
}

#[test]
fn clean_merge_writes_output_and_succeeds() {
    let report = merge_values([1, 2, 1], Resolutions::none());
    assert!(report.is_clean());
    let rendered = rendered(&report);
    assert!(
        rendered.contains("Value = Int64(2)"),
        "merged output should carry ours' edit, got:\n{rendered}"
    );
}

#[test]
fn conflicting_merge_fails_without_writing_output() {
    let report = merge_values([1, 2, 3], Resolutions::none());
    assert!(!report.is_clean());
    assert!(report.merged.is_none(), "conflicting merge must not write the output file");
    let printed = conflict_summary(&report.conflicts);
    assert!(printed.contains("PropertyValue"), "got:\n{printed}");
    assert_eq!(
        printed,
        "semantic merge conflicts: 1\n- kind=PropertyValue path=Counter class=IntValue \
         name=Counter property=Value\n  base: Int64(1)\n  ours: Int64(2)\n  theirs: Int64(3)\n"
    );
}

#[test]
fn take_ours_resolves_conflict_and_writes_output() {
    let rendered = rendered(&merge_values([1, 2, 3], Resolutions::take(Side::Ours)));
    assert!(
        rendered.contains("Value = Int64(2)"),
        "resolved output should take ours, got:\n{rendered}"
    );
}

#[test]
fn conflict_report_round_trip_resolves() {
    let first = merge_values([1, 2, 3], Resolutions::none());
    assert!(!first.is_clean(), "the first merge should conflict");
    let report_text = write_conflict_report(&first.conflicts);
    assert!(report_text.contains("kind = PropertyValue"), "{report_text}");
    assert!(report_text.contains("resolution = unresolved"), "{report_text}");

    let edited = report_text.replace("resolution = unresolved", "resolution = theirs");
    let second = merge_values([1, 2, 3], parse_resolutions(Resolutions::none(), &edited));
    let rendered = rendered(&second);
    assert!(
        rendered.contains("Value = Int64(3)"),
        "should resolve to theirs, got:\n{rendered}"
    );
}

#[test]
fn untouched_report_decides_nothing() {
    let first = merge_values([1, 2, 3], Resolutions::none());
    let report_text = write_conflict_report(&first.conflicts);
    let again = merge_values([1, 2, 3], parse_resolutions(Resolutions::none(), &report_text));
    assert_eq!(again.conflicts.len(), 1);
    // What was decided before stays decided.
    let taken = parse_resolutions(Resolutions::take(Side::Base), &report_text);
    assert_eq!(
        taken.lookup(ConflictKind::PropertyValue, "Counter", Some("Value")),
        Some(Side::Base)
    );
}

#[test]
fn report_lines_that_say_nothing_are_skipped() {
    let text = "kind = DeleteModify\n[[conflict]]\n# resolution = base\n kind=DeleteModify \n\
                path = A.B\nproperty = <none>\nours = modified\nresolution =  ours \n\n\
                [[conflict]]\nkind = Unheard\npath = C\nresolution = ours\n\
                [[conflict]]\nkind = RefTarget\npath = D\nproperty = Value\nresolution = neither\n";
    let choices = parse_resolutions(Resolutions::none(), text);
    assert_eq!(choices.lookup(ConflictKind::DeleteModify, "A.B", None), Some(Side::Ours));
    assert_eq!(choices.lookup(ConflictKind::RefTarget, "D", Some("Value")), None);
    assert_eq!(choices.lookup(ConflictKind::DeleteModify, "C", None), None);
}

#[test]
fn report_has_one_block_per_conflict() {
    let conflict = Conflict {
        kind: ConflictKind::ParentMove,
        path: "A.B".to_owned(),
        class: "Folder".to_owned(),
        name: "B".to_owned(),
        property: None,
        base: Some(DisplayValue::new("A".to_owned())),
        ours: None,
        theirs: Some(DisplayValue::new("C".to_owned())),
    };
    let text = write_conflict_report(&vec![conflict.clone(), conflict]);
    let block = "[[conflict]]\nkind = ParentMove\npath = A.B\nproperty = <none>\nbase = A\n\
                 theirs = C\nresolution = unresolved\n\n";
    assert!(text.starts_with("# rbx-merge conflict report\n"), "{text}");
    assert!(text.ends_with(&format!("{block}{block}")), "{text}");
}

#[test]
fn kinds_have_names() {
    for kind in [
        ConflictKind::InstanceIdentity,
        ConflictKind::UniqueIdCollision,
        ConflictKind::DeleteModify,
        ConflictKind::PropertyValue,
        ConflictKind::ParentMove,
        ConflictKind::ParentCycle,
        ConflictKind::ChildOrder,
        ConflictKind::RefTarget,
    ] {
        assert_eq!(kind.name(), format!("{kind:?}"));
        assert_eq!(kind.name().parse::<ConflictKind>().ok(), Some(kind));
    }
    assert!("parentmove".parse::<ConflictKind>().is_err());
}

#[test]
fn overrides_go_before_the_default() {
    let choices = Resolutions::take(Side::Ours).resolve(
        ConflictKind::ChildOrder,
        "A",
        None,
        Side::Theirs,
    );
    assert_eq!(choices.lookup(ConflictKind::ChildOrder, "A", None), Some(Side::Theirs));
    assert_eq!(choices.lookup(ConflictKind::ChildOrder, "B", None), Some(Side::Ours));
    assert_eq!(Resolutions::none().lookup(ConflictKind::ChildOrder, "A", None), None);
}

#[test]
fn diagnostics_are_printed_on_a_line() {
    let report = merge_values([1, 1, 1], Resolutions::none());
    let lines: Vec<String> = report.diagnostics.iter().map(diagnostic_line).collect();
    assert_eq!(lines.len(), 2);
    assert!(lines[0].starts_with("diagnostic Warning weak_dom_metadata: "), "{}", lines[0]);
    assert_eq!(
        lines[1],
        "diagnostic Info output_format: merged output encoded as XML model (.rbxmx) (model.rbxmx)"
    );
}

#[test]
fn texts_are_shown_one_after_the_other() {
    assert_eq!(show_both("a", "old", "b", "new\n"), "--- a\nold\n+++ b\nnew\n");
    assert_eq!(show_both("a", "old\n", "b", "new"), "--- a\nold\n+++ b\nnew");
}

#[test]
fn merge_takes_one_path_for_all() {
    let [base, ours, theirs] = [1, 1, 5].map(|value| intvalue_model("Counter", value));
    let input = MergeInput {
        base: base.as_bytes(),
        ours: ours.as_bytes(),
        theirs: theirs.as_bytes(),
        path_hint: Some("model.rbxmx"),
    };
    let report = merge(input, MergeOptions::default()).expect("merge");
    assert!(rendered(&report).contains("Value = Int64(5)"));
    let input = MergeInput { base: b"?", path_hint: None, ..input };
    assert!(matches!(
        merge(input, MergeOptions::default()),
        Err(Error::UnknownFormat { .. })
    ));
}

#[test]
fn unreadable_sides_are_named_by_their_format() {
    let model = intvalue_model("Counter", 1);
    let good = || FileInput::new(model.as_bytes()).with_path_hint("model.rbxmx");
    let bad = || FileInput::new(b"no model").with_path_hint("model.rbxmx");
    for (base, ours, theirs) in [
        (bad(), good(), good()),
        (good(), bad(), good()),
        (good(), good(), bad()),
    ] {
        let error = merge_files(base, ours, theirs, MergeSettings::default()).unwrap_err();
        assert!(matches!(error, Error::Decode { .. }), "{error:?}");
        assert!(error.message().starts_with("failed to decode XML model (.rbxmx): "));
    }
}

#[test]
fn stash_and_resolve_round_trip() {
    // A conflicted merge leaves its inputs and a report.
    let first = merge_values([1, 2, 3], Resolutions::none());
    assert!(!first.is_clean());
    let report_text = write_conflict_report(&first.conflicts);

    // Resolve in favor of theirs, then merge the same inputs again.
    let edited = report_text.replace("resolution = unresolved", "resolution = theirs");
    let resolved = merge_values([1, 2, 3], parse_resolutions(Resolutions::none(), &edited));
    assert!(resolved.is_clean(), "resolve should succeed");
    assert!(
        rendered(&resolved).contains("Value = Int64(3)"),
        "resolved output should take theirs"
    );
}

#[test]
fn reports_are_written_or_shown() {
    let clean = merge_values([1, 2, 1], Resolutions::none());
    let plan = merge_plan(&clean, true, true);
    assert!(plan.write_out && !plan.show_conflicts && !plan.write_conflicts && !plan.stash);
    assert_eq!(plan.exit_code, 0);
    let conflicted = merge_values([1, 2, 3], Resolutions::none());
    let plan = merge_plan(&conflicted, true, false);
    assert!(!plan.write_out && plan.show_conflicts && plan.write_conflicts && !plan.stash);
    assert_eq!(plan.exit_code, 1);
    assert!(merge_plan(&conflicted, false, true).stash);
}
