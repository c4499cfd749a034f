//! Merging files of both formats.

use std::io::Cursor;

use rbx_dom_weak::{ustr, InstanceBuilder, WeakDom};
use rbx_merge::{
    merge_files, textconv, Conflict, ConflictKind, Diagnostic, DiagnosticSeverity, FileFormat,
    FileInput, MergeReport, MergeSettings, Resolutions, Side, TextconvOptions,
};
use rbx_types::{Attributes, Color3, Ref, UniqueId, Variant, Vector3};
use rbx_xml::{DecodeOptions, DecodePropertyBehavior, EncodeOptions, EncodePropertyBehavior};

type Result<T> = std::result::Result<T, String>;

fn model_path(name: &str, file_name: &str) -> String {
    format!("models/{name}/{file_name}")
}

/// The model of that name, as a tree.
fn model(path: &str) -> WeakDom {
    let root = InstanceBuilder::new("DataModel");
    if path.contains("three-intvalues") {
        let value = |name: &str, value: i64| {
            InstanceBuilder::new("IntValue")
                .with_name(name)
                .with_property("Value", value)
        };
        WeakDom::new(
            root.with_child(value("Value=1337", 1337))
                .with_child(value("Value=1234567", 1234567))
                .with_child(value("Value=-1", -1)),
        )
    } else if path.contains("default-inserted-folder") {
        WeakDom::new(root.with_child(InstanceBuilder::new("Folder").with_name("Folder")))
    } else if path.contains("ref-child") {
        let target = InstanceBuilder::new("Folder").with_name("Ref Target");
        let referent = target.referent();
        WeakDom::new(
            root.with_child(
                InstanceBuilder::new("ObjectValue")
                    .with_name("Value")
                    .with_property("Value", Variant::Ref(referent))
                    .with_child(target),
            ),
        )
    } else if path.contains("attributes") {
        let attributes = Attributes::new()
            .with("Boolean", true)
            .with("Color3", Color3::new(0.63529414, 0.0, 1.0))
            .with("Number", 12345.0_f64)
            .with("Vector3", Vector3::new(1.0, 2.0, 3.0));
        WeakDom::new(
            root.with_child(
                InstanceBuilder::new("Folder")
                    .with_name("Folder")
                    .with_property("Attributes", Variant::Attributes(attributes)),
            ),
        )
    } else {
        panic!("no model {path}")
    }
}

fn read_fixture(path: &str) -> Result<Vec<u8>> {
    encode_fixture(&model(path), path)
}

fn edit_fixture<F>(path: &str, edit: F) -> Result<Vec<u8>>
where
    F: FnOnce(&mut WeakDom) -> Result<()>,
{
    edit_bytes(&read_fixture(path)?, path, edit)
}

fn edit_bytes<F>(bytes: &[u8], path_hint: &str, edit: F) -> Result<Vec<u8>>
where
    F: FnOnce(&mut WeakDom) -> Result<()>,
{
    let mut dom = decode_bytes(bytes, path_hint)?;
    edit(&mut dom)?;
    encode_fixture(&dom, path_hint)
}

fn file_format(path: &str) -> Result<FileFormat> {
    FileFormat::from_extension(path).ok_or_else(|| format!("unknown extension of {path}"))
}

fn decode_bytes(bytes: &[u8], path_hint: &str) -> Result<WeakDom> {
    match file_format(path_hint)? {
        FileFormat::XmlModel | FileFormat::XmlPlace => {
            let options =
                DecodeOptions::new().property_behavior(DecodePropertyBehavior::ReadUnknown);
            rbx_xml::from_reader(Cursor::new(bytes), options).map_err(|e| e.to_string())
        }
        FileFormat::BinaryModel | FileFormat::BinaryPlace => {
            rbx_binary::from_reader(Cursor::new(bytes)).map_err(|e| e.to_string())
        }
    }
}

fn encode_fixture(dom: &WeakDom, path_hint: &str) -> Result<Vec<u8>> {
    let root_refs = dom.root().children();
    let mut bytes = Vec::new();
    match file_format(path_hint)? {
        FileFormat::XmlModel | FileFormat::XmlPlace => {
            let options =
                EncodeOptions::new().property_behavior(EncodePropertyBehavior::WriteUnknown);
            rbx_xml::to_writer(&mut bytes, dom, root_refs, options).map_err(|e| e.to_string())?;
        }
        FileFormat::BinaryModel | FileFormat::BinaryPlace => {
            rbx_binary::to_writer(&mut bytes, dom, root_refs).map_err(|e| e.to_string())?;
        }
    }
    Ok(bytes)
}

fn merge_resolved(
    base: &[u8],
    ours: &[u8],
    theirs: &[u8],
    path_hint: &str,
    resolutions: Resolutions,
) -> Result<MergeReport> {
    merge_files(
        FileInput::new(base).with_path_hint(path_hint),
        FileInput::new(ours).with_path_hint(path_hint),
        FileInput::new(theirs).with_path_hint(path_hint),
        MergeSettings {
            resolutions,
            ..Default::default()
        },
    )
    .map_err(|e| e.message())
}

fn merge_fixture_bytes(
    base: &[u8],
    ours: &[u8],
    theirs: &[u8],
    path_hint: &str,
) -> Result<MergeReport> {
    merge_resolved(base, ours, theirs, path_hint, Resolutions::none())
}

fn expect_clean(report: MergeReport) -> (Vec<u8>, Vec<Diagnostic>) {
    assert!(
        report.conflicts.is_empty(),
        "expected clean merge, got conflicts: {:#?}",
        report.conflicts
    );
    let merged = report
        .merged
        .expect("clean merge should have produced output");
    (merged, report.diagnostics)
}

fn expect_conflicted(report: MergeReport) -> (Vec<Conflict>, Vec<Diagnostic>) {
    assert!(
        !report.conflicts.is_empty(),
        "expected conflicted merge, got clean output"
    );
    (report.conflicts, report.diagnostics)
}

fn find_by_name(dom: &WeakDom, name: &str) -> Result<Ref> {
    dom.descendants()
        .find(|instance| instance.name == name)
        .map(|instance| instance.referent())
        .ok_or_else(|| format!("no instance named {name:?}"))
}

fn set_property<V>(dom: &mut WeakDom, instance_name: &str, property_name: &str, value: V) -> Result<()>
where
    V: Into<Variant>,
{
    let referent = find_by_name(dom, instance_name)?;
    let instance = dom.get_by_ref_mut(referent).expect("instance disappeared");
    instance.properties.insert(ustr(property_name), value.into());
    Ok(())
}

fn rename_instance(dom: &mut WeakDom, old_name: &str, new_name: &str) -> Result<()> {
    let referent = find_by_name(dom, old_name)?;
    let instance = dom.get_by_ref_mut(referent).expect("instance disappeared");
    instance.name = new_name.to_owned();
    Ok(())
}

fn insert_child(dom: &mut WeakDom, parent_name: &str, child: InstanceBuilder) -> Result<Ref> {
    let parent = find_by_name(dom, parent_name)?;
    Ok(dom.insert(parent, child))
}

fn insert_child_at_root(dom: &mut WeakDom, child: InstanceBuilder) -> Ref {
    let root = dom.root_ref();
    dom.insert(root, child)
}

fn delete_instance(dom: &mut WeakDom, name: &str) -> Result<()> {
    let referent = find_by_name(dom, name)?;
    dom.destroy(referent);
    Ok(())
}

fn reparent(dom: &mut WeakDom, child_name: &str, new_parent_name: &str) -> Result<()> {
    let child = find_by_name(dom, child_name)?;
    let parent = find_by_name(dom, new_parent_name)?;
    dom.transfer_within(child, parent);
    Ok(())
}

/// Moves an instance to the end of its parent's children.
fn move_to_end(dom: &mut WeakDom, name: &str) -> Result<()> {
    let referent = find_by_name(dom, name)?;
    let parent = dom.get_by_ref(referent).expect("instance disappeared").parent();
    dom.transfer_within(referent, parent);
    Ok(())
}

fn stable_ref(value: u128) -> Ref {
    Ref::some(value)
}

fn nth_child(dom: &WeakDom, parent_name: &str, index: usize) -> Result<Ref> {
    let parent = find_by_name(dom, parent_name)?;
    dom.get_by_ref(parent)
        .and_then(|instance| instance.children().get(index).copied())
        .ok_or_else(|| format!("parent {parent_name:?} has no child at index {index}"))
}

fn child_string_values(dom: &WeakDom, parent: Ref) -> Vec<String> {
    dom.get_by_ref(parent)
        .map(|instance| {
            instance
                .children()
                .iter()
                .map(|child| {
                    match dom
                        .get_by_ref(*child)
                        .and_then(|node| node.properties.get(&ustr("Value")))
                    {
                        Some(Variant::String(value)) => value.clone(),
                        _ => "<none>".to_owned(),
                    }
                })
                .collect()
        })
        .unwrap_or_default()
}

fn child_names(dom: &WeakDom, parent: Ref) -> Vec<String> {
    dom.get_by_ref(parent)
        .map(|instance| {
            instance
                .children()
                .iter()
                .filter_map(|child| dom.get_by_ref(*child))
                .map(|child| child.name.clone())
                .collect()
        })
        .unwrap_or_default()
}

fn text_of(bytes: &[u8], path: &str) -> Result<String> {
    textconv(bytes, Some(path), TextconvOptions::all()).map_err(|e| e.message())
}

#[test]
fn clean_one_sided_property_edit_snapshots_output() -> Result<()> {
    let path = model_path("three-intvalues", "xml.rbxmx");
    let base = read_fixture(&path)?;
    let ours = edit_fixture(&path, |dom| {
        set_property(dom, "Value=1337", "Value", 9001_i64)
    })?;

    let result = merge_fixture_bytes(&base, &ours, &base, &path)?;
    let (merged, diagnostics) = expect_clean(result);

    let codes: Vec<&str> = diagnostics.iter().map(|d| d.code.as_str()).collect();
    assert_eq!(codes, ["weak_dom_metadata", "output_format"]);
    assert_eq!(diagnostics[0].severity, DiagnosticSeverity::Warning);
    assert_eq!(diagnostics[0].path, None);
    assert_eq!(diagnostics[1].severity, DiagnosticSeverity::Info);
    assert_eq!(
        diagnostics[1].message,
        "merged output encoded as XML model (.rbxmx)"
    );
    assert_eq!(diagnostics[1].path.as_deref(), Some(path.as_str()));
    assert_eq!(
        text_of(&merged, &path)?,
        "# rbx-merge — XML model (.rbxmx)\nDataModel\n\n  IntValue \"Value=1337\"\n    \
         Value = Int64(9001)\n\n  IntValue \"Value=1234567\"\n    Value = Int64(1234567)\n\n  \
         IntValue \"Value=-1\"\n    Value = Int64(-1)\n"
    );
    Ok(())
}

#[test]
fn regenerated_unique_id_diverges_three_ways_but_merges_cleanly() -> Result<()> {
    // Studio regenerates the UniqueId of some instances (e.g. Welds) when a place
    // is opened, so both sides can independently carry a different UniqueId for an
    // instance that is otherwise unchanged. The instance still matches by
    // structure, and the divergent UniqueId — base, ours, theirs all distinct —
    // must resolve cleanly to the base value rather than surfacing a conflict the
    // user cannot meaningfully resolve.
    let path = model_path("three-intvalues", "xml.rbxmx");
    let base_id = UniqueId::new(1, 1, 1);
    let ours_id = UniqueId::new(2, 2, 2);
    let theirs_id = UniqueId::new(3, 3, 3);

    let base = edit_fixture(&path, |dom| {
        set_property(dom, "Value=1337", "UniqueId", Variant::UniqueId(base_id))
    })?;
    let ours = edit_bytes(&base, &path, |dom| {
        set_property(dom, "Value=1337", "UniqueId", Variant::UniqueId(ours_id))
    })?;
    let theirs = edit_bytes(&base, &path, |dom| {
        set_property(dom, "Value=1337", "UniqueId", Variant::UniqueId(theirs_id))
    })?;

    let result = merge_fixture_bytes(&base, &ours, &theirs, &path)?;
    let (merged, _) = expect_clean(result);
    let decoded = decode_bytes(&merged, &path)?;

    let target = find_by_name(&decoded, "Value=1337")?;
    let merged_id = match decoded
        .get_by_ref(target)
        .and_then(|node| node.properties.get(&ustr("UniqueId")))
    {
        Some(Variant::UniqueId(id)) => Some(*id),
        _ => None,
    };
    assert_eq!(
        merged_id,
        Some(base_id),
        "the matched instance should keep the base UniqueId"
    );
    Ok(())
}

#[test]
fn conflicting_property_edit_snapshots_conflicts() -> Result<()> {
    let path = model_path("three-intvalues", "xml.rbxmx");
    let base = read_fixture(&path)?;
    let ours = edit_fixture(&path, |dom| {
        set_property(dom, "Value=1337", "Value", 1_i64)
    })?;
    let theirs = edit_fixture(&path, |dom| {
        set_property(dom, "Value=1337", "Value", 2_i64)
    })?;

    let result = merge_fixture_bytes(&base, &ours, &theirs, &path)?;
    let (conflicts, diagnostics) = expect_conflicted(result);

    assert!(
        conflicts
            .iter()
            .any(|conflict| conflict.kind == ConflictKind::PropertyValue)
    );
    assert_eq!(conflicts.len(), 1);
    let conflict = &conflicts[0];
    assert_eq!(conflict.path, "Value=1337");
    assert_eq!(conflict.class, "IntValue");
    assert_eq!(conflict.name, "Value=1337");
    assert_eq!(conflict.property.as_deref(), Some("Value"));
    let shown = |side: &Option<rbx_merge::DisplayValue>| side.as_ref().map(|v| v.text.clone());
    assert_eq!(shown(&conflict.base).as_deref(), Some("Int64(1337)"));
    assert_eq!(shown(&conflict.ours).as_deref(), Some("Int64(1)"));
    assert_eq!(shown(&conflict.theirs).as_deref(), Some("Int64(2)"));
    let codes: Vec<&str> = diagnostics.iter().map(|d| d.code.as_str()).collect();
    assert_eq!(codes, ["weak_dom_metadata"]);
    Ok(())
}

#[test]
fn clean_one_sided_add_snapshots_output() -> Result<()> {
    let path = model_path("default-inserted-folder", "xml.rbxmx");
    let base = read_fixture(&path)?;
    let ours = edit_fixture(&path, |dom| {
        let child = InstanceBuilder::new("StringValue")
            .with_name("Merge Added")
            .with_referent(stable_ref(
                0x1111_2222_3333_4444_5555_6666_7777_8888,
            ))
            .with_property("Value", "ours");

        insert_child(dom, "Folder", child)?;
        Ok(())
    })?;

    let result = merge_fixture_bytes(&base, &ours, &base, &path)?;
    let (merged, diagnostics) = expect_clean(result);

    let codes: Vec<&str> = diagnostics.iter().map(|d| d.code.as_str()).collect();
    assert_eq!(codes, ["weak_dom_metadata", "output_format"]);
    assert_eq!(
        text_of(&merged, &path)?,
        "# rbx-merge — XML model (.rbxmx)\nDataModel\n\n  Folder \"Folder\"\n\n    \
         StringValue \"Merge Added\"\n      Value = \"ours\"\n"
    );
    Ok(())
}

#[test]
fn unchanged_real_model_does_not_serialize_synthetic_datamodel() -> Result<()> {
    let path = model_path("three-intvalues", "xml.rbxmx");
    let base = read_fixture(&path)?;

    let result = merge_fixture_bytes(&base, &base, &base, &path)?;
    let (merged, _) = expect_clean(result);
    let decoded = decode_bytes(&merged, &path)?;

    assert_eq!(decoded.root().children().len(), 3);
    for child_ref in decoded.root().children() {
        let child = decoded.get_by_ref(*child_ref).unwrap();
        assert_eq!(child.class.as_str(), "IntValue");
    }

    assert_eq!(text_of(&merged, &path)?, text_of(&base, &path)?);
    Ok(())
}

#[test]
fn clean_one_sided_rename_keeps_new_name() -> Result<()> {
    let path = model_path("three-intvalues", "xml.rbxmx");
    let base = read_fixture(&path)?;
    let ours = edit_fixture(&path, |dom| {
        rename_instance(dom, "Value=1337", "Renamed")
    })?;

    let result = merge_fixture_bytes(&base, &ours, &base, &path)?;
    let (merged, _) = expect_clean(result);
    let decoded = decode_bytes(&merged, &path)?;

    let names = child_names(&decoded, decoded.root_ref());
    assert!(
        names.contains(&"Renamed".to_owned()),
        "names were {names:?}"
    );
    assert!(!names.contains(&"Value=1337".to_owned()));
    Ok(())
}

#[test]
fn clean_one_sided_delete_removes_instance() -> Result<()> {
    let path = model_path("three-intvalues", "xml.rbxmx");
    let base = read_fixture(&path)?;
    let ours = edit_fixture(&path, |dom| delete_instance(dom, "Value=1337"))?;

    let result = merge_fixture_bytes(&base, &ours, &base, &path)?;
    let (merged, _) = expect_clean(result);
    let decoded = decode_bytes(&merged, &path)?;

    let names = child_names(&decoded, decoded.root_ref());
    assert_eq!(names.len(), 2);
    assert!(!names.contains(&"Value=1337".to_owned()));
    Ok(())
}

#[test]
fn delete_versus_modify_conflicts() -> Result<()> {
    let path = model_path("three-intvalues", "xml.rbxmx");
    let base = read_fixture(&path)?;
    let ours = edit_fixture(&path, |dom| delete_instance(dom, "Value=1337"))?;
    let theirs = edit_fixture(&path, |dom| {
        set_property(dom, "Value=1337", "Value", 42_i64)
    })?;

    let result = merge_fixture_bytes(&base, &ours, &theirs, &path)?;
    let (conflicts, _) = expect_conflicted(result);

    assert!(
        conflicts
            .iter()
            .any(|conflict| conflict.kind == ConflictKind::DeleteModify),
        "expected a DeleteModify conflict, got {conflicts:#?}"
    );
    Ok(())
}

#[test]
fn child_order_independent_additions_merge_cleanly() -> Result<()> {
    let path = model_path("three-intvalues", "xml.rbxmx");
    let base = read_fixture(&path)?;
    let ours = edit_fixture(&path, |dom| {
        insert_child_at_root(dom, InstanceBuilder::new("StringValue").with_name("OurAdd"));
        Ok(())
    })?;
    let theirs = edit_fixture(&path, |dom| {
        insert_child_at_root(
            dom,
            InstanceBuilder::new("StringValue").with_name("TheirAdd"),
        );
        Ok(())
    })?;

    let result = merge_fixture_bytes(&base, &ours, &theirs, &path)?;
    let (merged, _) = expect_clean(result);
    let decoded = decode_bytes(&merged, &path)?;

    let names = child_names(&decoded, decoded.root_ref());
    assert!(names.contains(&"OurAdd".to_owned()), "names were {names:?}");
    assert!(
        names.contains(&"TheirAdd".to_owned()),
        "names were {names:?}"
    );
    assert_eq!(names.len(), 5);
    Ok(())
}

#[test]
fn child_order_divergent_reorder_conflicts() -> Result<()> {
    let path = model_path("three-intvalues", "xml.rbxmx");
    let base = read_fixture(&path)?;
    let ours = edit_fixture(&path, |dom| move_to_end(dom, "Value=1234567"))?;
    let theirs = edit_fixture(&path, |dom| move_to_end(dom, "Value=1337"))?;

    let result = merge_fixture_bytes(&base, &ours, &theirs, &path)?;
    let (conflicts, _) = expect_conflicted(result);

    assert!(
        conflicts
            .iter()
            .any(|conflict| conflict.kind == ConflictKind::ChildOrder),
        "expected a ChildOrder conflict, got {conflicts:#?}"
    );
    Ok(())
}

#[test]
fn parent_move_one_sided_merges_cleanly() -> Result<()> {
    let path = model_path("default-inserted-folder", "xml.rbxmx");
    let base = edit_fixture(&path, build_reparent_scaffold)?;
    let ours = edit_bytes(&base, &path, |dom| reparent(dom, "Leaf", "P1"))?;

    let result = merge_fixture_bytes(&base, &ours, &base, &path)?;
    let (merged, _) = expect_clean(result);
    let decoded = decode_bytes(&merged, &path)?;

    let p1 = find_by_name(&decoded, "P1")?;
    assert!(child_names(&decoded, p1).contains(&"Leaf".to_owned()));
    Ok(())
}

#[test]
fn parent_move_divergent_conflicts() -> Result<()> {
    let path = model_path("default-inserted-folder", "xml.rbxmx");
    let base = edit_fixture(&path, build_reparent_scaffold)?;
    let ours = edit_bytes(&base, &path, |dom| reparent(dom, "Leaf", "P1"))?;
    let theirs = edit_bytes(&base, &path, |dom| reparent(dom, "Leaf", "P2"))?;

    let result = merge_fixture_bytes(&base, &ours, &theirs, &path)?;
    let (conflicts, _) = expect_conflicted(result);

    assert!(
        conflicts
            .iter()
            .any(|conflict| conflict.kind == ConflictKind::ParentMove),
        "expected a ParentMove conflict, got {conflicts:#?}"
    );
    Ok(())
}

#[test]
fn mutual_reparent_cycle_conflicts() -> Result<()> {
    let path = model_path("default-inserted-folder", "xml.rbxmx");
    // Two folders at the root, each carrying a `UniqueId` so identity matching
    // tracks them across a move.
    let base = edit_fixture(&path, |dom| {
        insert_child_at_root(
            dom,
            InstanceBuilder::new("Folder")
                .with_name("A")
                .with_property("UniqueId", Variant::UniqueId(UniqueId::new(1, 1, 1))),
        );
        insert_child_at_root(
            dom,
            InstanceBuilder::new("Folder")
                .with_name("B")
                .with_property("UniqueId", Variant::UniqueId(UniqueId::new(2, 2, 2))),
        );
        Ok(())
    })?;
    // ours moves A under B; theirs moves B under A. Each move is clean alone, but
    // together they form an A -> B -> A parent cycle.
    let ours = edit_bytes(&base, &path, |dom| reparent(dom, "A", "B"))?;
    let theirs = edit_bytes(&base, &path, |dom| reparent(dom, "B", "A"))?;

    let result = merge_fixture_bytes(&base, &ours, &theirs, &path)?;
    let (conflicts, _) = expect_conflicted(result);

    assert!(
        conflicts
            .iter()
            .any(|conflict| conflict.kind == ConflictKind::ParentCycle),
        "expected a ParentCycle conflict rather than silent data loss, got {conflicts:#?}"
    );
    Ok(())
}

/// Adds two sibling folders `P1`/`P2` and a `Leaf` under the existing `Folder`.
/// `Leaf` carries a `UniqueId` so identity matching tracks it across a move
/// instead of reading the move as a delete plus an add.
fn build_reparent_scaffold(dom: &mut WeakDom) -> Result<()> {
    insert_child_at_root(dom, InstanceBuilder::new("Folder").with_name("P1"));
    insert_child_at_root(dom, InstanceBuilder::new("Folder").with_name("P2"));
    insert_child(
        dom,
        "Folder",
        InstanceBuilder::new("StringValue")
            .with_name("Leaf")
            .with_property("UniqueId", Variant::UniqueId(UniqueId::new(7, 7, 7))),
    )?;
    Ok(())
}

#[test]
fn ambiguous_added_match_reports_diagnostic() -> Result<()> {
    let path = model_path("default-inserted-folder", "xml.rbxmx");
    let base = read_fixture(&path)?;
    let ours = edit_fixture(&path, |dom| {
        insert_child(
            dom,
            "Folder",
            InstanceBuilder::new("StringValue").with_name("Dup"),
        )?;
        insert_child(
            dom,
            "Folder",
            InstanceBuilder::new("StringValue").with_name("Dup"),
        )?;
        Ok(())
    })?;
    let theirs = edit_fixture(&path, |dom| {
        insert_child(
            dom,
            "Folder",
            InstanceBuilder::new("StringValue").with_name("Dup"),
        )?;
        Ok(())
    })?;

    let result = merge_fixture_bytes(&base, &ours, &theirs, &path)?;
    let (_, diagnostics) = expect_clean(result);

    assert!(
        diagnostics
            .iter()
            .any(|diagnostic| diagnostic.code == "ambiguous_identity"),
        "expected an ambiguous_identity diagnostic, got {diagnostics:#?}"
    );
    Ok(())
}

#[test]
fn unknown_property_is_reported() -> Result<()> {
    let path = model_path("three-intvalues", "xml.rbxmx");
    let base = read_fixture(&path)?;
    let ours = edit_fixture(&path, |dom| {
        set_property(dom, "Value=1337", "CustomMergeField", "hello")
    })?;

    let result = merge_fixture_bytes(&base, &ours, &base, &path)?;
    let (_, diagnostics) = expect_clean(result);

    let unknown = diagnostics
        .iter()
        .find(|diagnostic| diagnostic.code == "unknown_property")
        .unwrap_or_else(|| panic!("expected an unknown_property diagnostic, got {diagnostics:#?}"));
    assert_eq!(unknown.severity, DiagnosticSeverity::Info);
    assert!(unknown.message.contains("CustomMergeField"));
    Ok(())
}

#[test]
fn binary_no_op_merge_round_trips() -> Result<()> {
    let path = model_path("attributes", "binary.rbxm");
    let base = read_fixture(&path)?;

    let result = merge_fixture_bytes(&base, &base, &base, &path)?;
    let (merged, _) = expect_clean(result);

    assert!(merged.starts_with(b"<roblox!"), "output was not binary");
    // Re-decoding must succeed and preserve the instance count.
    let original = decode_bytes(&base, &path)?;
    let decoded = decode_bytes(&merged, &path)?;
    assert_eq!(
        decoded.root().children().len(),
        original.root().children().len()
    );
    Ok(())
}

#[test]
fn merge_files_report_exposes_clean_output() -> Result<()> {
    let path = model_path("three-intvalues", "xml.rbxmx");
    let base = read_fixture(&path)?;
    let ours = edit_fixture(&path, |dom| {
        set_property(dom, "Value=1337", "Value", 9001_i64)
    })?;

    let report = merge_files(
        FileInput::new(&base).with_path_hint(&path),
        FileInput::new(&ours).with_path_hint(&path),
        FileInput::new(&base).with_path_hint(&path),
        MergeSettings::default(),
    )
    .map_err(|e| e.message())?;

    assert!(report.is_clean());
    assert!(report.conflicts.is_empty());
    assert!(report.merged.is_some());
    Ok(())
}

#[test]
fn internal_ref_survives_merge_round_trip() -> Result<()> {
    let path = model_path("ref-child", "xml.rbxmx");
    let base = read_fixture(&path)?;

    let result = merge_fixture_bytes(&base, &base, &base, &path)?;
    let (merged, _) = expect_clean(result);
    let decoded = decode_bytes(&merged, &path)?;

    let object_value = find_by_name(&decoded, "Value")?;
    let referent = match decoded
        .get_by_ref(object_value)
        .and_then(|instance| instance.properties.get(&ustr("Value")))
    {
        Some(Variant::Ref(referent)) => *referent,
        other => panic!("ObjectValue.Value was not a Ref: {other:?}"),
    };

    let target = decoded
        .get_by_ref(referent)
        .expect("merged ref did not resolve to an instance in the merged dom");
    assert_eq!(target.name, "Ref Target");
    Ok(())
}

#[test]
fn ref_to_deleted_target_conflicts() -> Result<()> {
    // A reachable dangling reference: `ours` repoints the ObjectValue at a new
    // sibling target, while `theirs` deletes that target. The merge keeps ours'
    // reference (theirs left the reference itself untouched), so the surviving
    // reference points at an instance dropped from the merge.
    let path = model_path("ref-child", "xml.rbxmx");
    let base = edit_fixture(&path, |dom| {
        insert_child_at_root(
            dom,
            InstanceBuilder::new("Folder").with_name("OtherTarget"),
        );
        Ok(())
    })?;
    let ours = edit_bytes(&base, &path, |dom| {
        let other = find_by_name(dom, "OtherTarget")?;
        set_property(dom, "Value", "Value", Variant::Ref(other))
    })?;
    let theirs = edit_bytes(&base, &path, |dom| {
        delete_instance(dom, "OtherTarget")
    })?;

    let result = merge_fixture_bytes(&base, &ours, &theirs, &path)?;
    let (conflicts, _) = expect_conflicted(result);

    assert!(
        conflicts
            .iter()
            .any(|conflict| conflict.kind == ConflictKind::RefTarget),
        "expected a RefTarget conflict, got {conflicts:#?}"
    );
    Ok(())
}

#[test]
fn ref_nilled_by_deletion_is_reported() -> Result<()> {
    // `ours` deletes the referenced target; `theirs` leaves it alone. The merge
    // is clean (the deleter's nilled reference wins), but the lost link is
    // reported rather than dropped silently.
    let path = model_path("ref-child", "xml.rbxmx");
    let base = read_fixture(&path)?;
    let ours = edit_fixture(&path, |dom| delete_instance(dom, "Ref Target"))?;

    let result = merge_fixture_bytes(&base, &ours, &base, &path)?;
    let (_, diagnostics) = expect_clean(result);

    assert!(
        diagnostics
            .iter()
            .any(|diagnostic| diagnostic.code == "dropped_reference"),
        "expected a dropped_reference diagnostic, got {diagnostics:#?}"
    );
    Ok(())
}

/// Encoded base/ours/theirs bytes plus the path hint.
type ConflictInputs = (Vec<u8>, Vec<u8>, Vec<u8>, String);

/// base/ours/theirs of three-intvalues where ours and theirs set the same
/// IntValue's Value to different numbers — an unavoidable PropertyValue
/// conflict.
fn conflicting_value_inputs() -> Result<ConflictInputs> {
    let path = model_path("three-intvalues", "xml.rbxmx");
    let base = read_fixture(&path)?;
    let ours = edit_fixture(&path, |dom| {
        set_property(dom, "Value=1337", "Value", 1_i64)
    })?;
    let theirs = edit_fixture(&path, |dom| {
        set_property(dom, "Value=1337", "Value", 2_i64)
    })?;
    Ok((base, ours, theirs, path))
}

fn merged_value(merged: &[u8], path: &str, instance: &str) -> Result<i64> {
    let decoded = decode_bytes(merged, path)?;
    let referent = find_by_name(&decoded, instance)?;
    match decoded
        .get_by_ref(referent)
        .and_then(|node| node.properties.get(&ustr("Value")))
    {
        Some(Variant::Int64(value)) => Ok(*value),
        other => Err(format!("expected Int64 Value, got {other:?}")),
    }
}

fn merge_with(resolutions: Resolutions) -> Result<(Vec<u8>, String)> {
    let (base, ours, theirs, path) = conflicting_value_inputs()?;
    let report = merge_files(
        FileInput::new(&base).with_path_hint(&path),
        FileInput::new(&ours).with_path_hint(&path),
        FileInput::new(&theirs).with_path_hint(&path),
        MergeSettings {
            resolutions,
            ..Default::default()
        },
    )
    .map_err(|e| e.message())?;
    let merged = report
        .merged
        .ok_or_else(|| format!("expected a clean merge, got {:#?}", report.conflicts))?;
    Ok((merged, path))
}

#[test]
fn bulk_take_ours_resolves_property_conflict() -> Result<()> {
    let (merged, path) = merge_with(Resolutions::take(Side::Ours))?;
    assert_eq!(merged_value(&merged, &path, "Value=1337")?, 1);
    Ok(())
}

#[test]
fn bulk_take_theirs_resolves_property_conflict() -> Result<()> {
    let (merged, path) = merge_with(Resolutions::take(Side::Theirs))?;
    assert_eq!(merged_value(&merged, &path, "Value=1337")?, 2);
    Ok(())
}

#[test]
fn per_conflict_override_resolves_one_property() -> Result<()> {
    let resolutions = Resolutions::none().resolve(
        ConflictKind::PropertyValue,
        "Value=1337",
        Some("Value".to_owned()),
        Side::Theirs,
    );
    let (merged, path) = merge_with(resolutions)?;
    assert_eq!(merged_value(&merged, &path, "Value=1337")?, 2);
    Ok(())
}

#[test]
fn unrelated_override_leaves_conflict_unresolved() -> Result<()> {
    // An override for a different property does not touch this conflict.
    let (base, ours, theirs, path) = conflicting_value_inputs()?;
    let resolutions = Resolutions::none().resolve(
        ConflictKind::PropertyValue,
        "Value=1337",
        Some("SomethingElse".to_owned()),
        Side::Ours,
    );
    let report = merge_files(
        FileInput::new(&base).with_path_hint(&path),
        FileInput::new(&ours).with_path_hint(&path),
        FileInput::new(&theirs).with_path_hint(&path),
        MergeSettings {
            resolutions,
            ..Default::default()
        },
    )
    .map_err(|e| e.message())?;
    assert!(report.merged.is_none());
    assert!(
        report
            .conflicts
            .iter()
            .any(|conflict| conflict.kind == ConflictKind::PropertyValue)
    );
    Ok(())
}

/// Build a `Folder` holding several identically-named `StringValue` children,
/// each distinguished only by its `Value`.
fn folder_with_items(path: &str, values: &[&str]) -> Result<Vec<u8>> {
    let base = read_fixture(path)?;
    edit_bytes(&base, path, |dom| {
        for value in values {
            insert_child(
                dom,
                "Folder",
                InstanceBuilder::new("StringValue")
                    .with_name("Item")
                    .with_property("Value", *value),
            )?;
        }
        Ok(())
    })
}

fn set_nth_item_value(dom: &mut WeakDom, index: usize, value: &str) -> Result<()> {
    let target = nth_child(dom, "Folder", index)?;
    dom.get_by_ref_mut(target)
        .expect("child should exist")
        .properties
        .insert(ustr("Value"), Variant::String(value.to_owned()));
    Ok(())
}

#[test]
fn independent_edits_to_same_named_siblings_merge() -> Result<()> {
    // Three identically-named children with no UniqueId. `ours` edits the first
    // and `theirs` edits the last. Positional matching keeps the three distinct,
    // so both edits land on the right sibling and the merge is clean — without
    // it, the unmatched siblings would become delete-plus-add noise.
    let path = model_path("default-inserted-folder", "xml.rbxmx");
    let base = folder_with_items(&path, &["a", "b", "c"])?;
    let ours = edit_bytes(&base, &path, |dom| set_nth_item_value(dom, 0, "a2"))?;
    let theirs = edit_bytes(&base, &path, |dom| set_nth_item_value(dom, 2, "c2"))?;

    let result = merge_fixture_bytes(&base, &ours, &theirs, &path)?;
    let (merged, _) = expect_clean(result);
    let decoded = decode_bytes(&merged, &path)?;

    let folder = find_by_name(&decoded, "Folder")?;
    assert_eq!(
        child_string_values(&decoded, folder),
        vec!["a2".to_owned(), "b".to_owned(), "c2".to_owned()]
    );
    Ok(())
}

#[test]
fn same_named_sibling_match_reports_positional_diagnostic() -> Result<()> {
    let path = model_path("default-inserted-folder", "xml.rbxmx");
    let base = folder_with_items(&path, &["a", "b"])?;
    let ours = edit_bytes(&base, &path, |dom| set_nth_item_value(dom, 0, "a2"))?;

    let result = merge_fixture_bytes(&base, &ours, &base, &path)?;
    let (_, diagnostics) = expect_clean(result);

    assert!(
        diagnostics
            .iter()
            .any(|diagnostic| diagnostic.code == "positional_identity"),
        "expected a positional_identity diagnostic, got {diagnostics:#?}"
    );
    Ok(())
}

#[test]
fn unique_id_disambiguates_reordered_siblings() -> Result<()> {
    // Same-named siblings *with* UniqueIds are tracked by id, not position, so a
    // reorder on one side and an edit on the other compose without the edit
    // following the position. No positional fallback is needed.
    let path = model_path("default-inserted-folder", "xml.rbxmx");
    let first_id = UniqueId::new(1, 1, 1);
    let second_id = UniqueId::new(2, 2, 2);
    let base = {
        let bytes = read_fixture(&path)?;
        edit_bytes(&bytes, &path, |dom| {
            for (id, value) in [(first_id, "a"), (second_id, "b")] {
                insert_child(
                    dom,
                    "Folder",
                    InstanceBuilder::new("StringValue")
                        .with_name("Item")
                        .with_property("UniqueId", Variant::UniqueId(id))
                        .with_property("Value", value),
                )?;
            }
            Ok(())
        })?
    };
    // ours moves the first item to the end; theirs edits that same item's value.
    let ours = edit_bytes(&base, &path, |dom| {
        let first = nth_child(dom, "Folder", 0)?;
        let folder = find_by_name(dom, "Folder")?;
        dom.transfer_within(first, folder);
        Ok(())
    })?;
    let theirs = edit_bytes(&base, &path, |dom| set_nth_item_value(dom, 0, "a2"))?;

    let result = merge_fixture_bytes(&base, &ours, &theirs, &path)?;
    let (merged, diagnostics) = expect_clean(result);
    let decoded = decode_bytes(&merged, &path)?;

    let folder = find_by_name(&decoded, "Folder")?;
    let value_of = |target_id: UniqueId| -> Option<String> {
        decoded
            .get_by_ref(folder)?
            .children()
            .iter()
            .find_map(|child| {
                let node = decoded.get_by_ref(*child)?;
                match node.properties.get(&ustr("UniqueId")) {
                    Some(Variant::UniqueId(id)) if *id == target_id => {
                        match node.properties.get(&ustr("Value")) {
                            Some(Variant::String(value)) => Some(value.clone()),
                            _ => None,
                        }
                    }
                    _ => None,
                }
            })
    };

    // The edit followed the UniqueId, not the slot it used to occupy.
    assert_eq!(value_of(first_id), Some("a2".to_owned()));
    assert_eq!(value_of(second_id), Some("b".to_owned()));
    assert!(
        !diagnostics
            .iter()
            .any(|diagnostic| diagnostic.code == "positional_identity"),
        "UniqueId matches should not need positional fallback, got {diagnostics:#?}"
    );
    Ok(())
}

#[test]
fn unique_id_pairing_resolves_before_heuristic_ambiguity() -> Result<()> {
    // Both sides add two identically-named siblings. One pair shares a UniqueId
    // (an exact match); the other pair has no UniqueId and can only be paired by
    // the (parent, class, name) heuristic. Resolving the UniqueId match first
    // leaves the no-id `theirs` addition with a single remaining candidate, so
    // it pairs cleanly. If the UniqueId pass did not run first, processing the
    // no-id addition before the UniqueId one would see two still-available
    // candidates and report a false ambiguity, splitting one instance into two.
    let path = model_path("default-inserted-folder", "xml.rbxmx");
    let shared_id = UniqueId::new(7, 7, 7);
    let base = read_fixture(&path)?;

    // ours adds the UniqueId-bearing item first, then the no-id item.
    let ours = edit_bytes(&base, &path, |dom| {
        insert_child(
            dom,
            "Folder",
            InstanceBuilder::new("StringValue")
                .with_name("Item")
                .with_property("UniqueId", Variant::UniqueId(shared_id))
                .with_property("Value", "shared"),
        )?;
        insert_child(
            dom,
            "Folder",
            InstanceBuilder::new("StringValue")
                .with_name("Item")
                .with_property("Value", "plain"),
        )?;
        Ok(())
    })?;
    // theirs adds the no-id item *first*, so document order would hand it to the
    // heuristic before the UniqueId match is resolved.
    let theirs = edit_bytes(&base, &path, |dom| {
        insert_child(
            dom,
            "Folder",
            InstanceBuilder::new("StringValue")
                .with_name("Item")
                .with_property("Value", "plain"),
        )?;
        insert_child(
            dom,
            "Folder",
            InstanceBuilder::new("StringValue")
                .with_name("Item")
                .with_property("UniqueId", Variant::UniqueId(shared_id))
                .with_property("Value", "shared"),
        )?;
        Ok(())
    })?;

    let result = merge_fixture_bytes(&base, &ours, &theirs, &path)?;
    let (merged, diagnostics) = expect_clean(result);
    let decoded = decode_bytes(&merged, &path)?;

    assert!(
        !diagnostics
            .iter()
            .any(|diagnostic| diagnostic.code == "ambiguous_identity"),
        "UniqueId-paired additions should not leave the no-id addition ambiguous, got {diagnostics:#?}"
    );

    let folder = find_by_name(&decoded, "Folder")?;
    let mut values = child_string_values(&decoded, folder);
    values.sort();
    // Both same-instance pairs collapse to one instance each: exactly two
    // children, not three.
    assert_eq!(values, vec!["plain".to_owned(), "shared".to_owned()]);
    Ok(())
}

/// The UniqueIds carried by a parent's direct children, sorted for a stable
/// comparison.
fn child_unique_ids(dom: &WeakDom, parent: Ref) -> Vec<UniqueId> {
    let mut ids: Vec<UniqueId> = dom
        .get_by_ref(parent)
        .map(|instance| {
            instance
                .children()
                .iter()
                .filter_map(|child| {
                    match dom.get_by_ref(*child)?.properties.get(&ustr("UniqueId")) {
                        Some(Variant::UniqueId(id)) => Some(*id),
                        _ => None,
                    }
                })
                .collect()
        })
        .unwrap_or_default();
    ids.sort_by_key(|id| id.to_string());
    ids
}

#[test]
fn identical_additions_dedupe_despite_differing_unique_ids() -> Result<()> {
    // Both sides independently add the *same* instance — same class, name, and
    // properties — but each carries its own UniqueId, because Studio assigns a
    // fresh id to every independently-created instance. Differing ids must not
    // veto the match: the content is identical (similarity 1.0), so the two are
    // recognized as one instance and deduped into a single child rather than
    // duplicated. This is the payoff of similarity gating.
    let path = model_path("default-inserted-folder", "xml.rbxmx");
    let ours_id = UniqueId::new(1, 1, 1);
    let theirs_id = UniqueId::new(2, 2, 2);
    let base = read_fixture(&path)?;

    let ours = edit_bytes(&base, &path, |dom| {
        insert_child(
            dom,
            "Folder",
            InstanceBuilder::new("StringValue")
                .with_name("Item")
                .with_property("UniqueId", Variant::UniqueId(ours_id))
                .with_property("Value", "shared"),
        )?;
        Ok(())
    })?;
    let theirs = edit_bytes(&base, &path, |dom| {
        insert_child(
            dom,
            "Folder",
            InstanceBuilder::new("StringValue")
                .with_name("Item")
                .with_property("UniqueId", Variant::UniqueId(theirs_id))
                .with_property("Value", "shared"),
        )?;
        Ok(())
    })?;

    let result = merge_fixture_bytes(&base, &ours, &theirs, &path)?;
    let (merged, _) = expect_clean(result);
    let decoded = decode_bytes(&merged, &path)?;

    let folder = find_by_name(&decoded, "Folder")?;
    // Deduped to a single instance; the divergent UniqueId is resolved by the
    // merge lever, so exactly one id survives.
    assert_eq!(
        child_string_values(&decoded, folder),
        vec!["shared".to_owned()]
    );
    assert_eq!(child_unique_ids(&decoded, folder).len(), 1);
    Ok(())
}

#[test]
fn dissimilar_additions_with_differing_unique_ids_are_kept_distinct() -> Result<()> {
    // Both sides add a same-named child, but with different content *and*
    // different UniqueIds. Neither signal says "same instance": the ids differ
    // and the content is too dissimilar to clear the similarity threshold, so the
    // two are genuinely distinct additions. They must not be combined by name
    // alone — both survive, each keeping its own id.
    let path = model_path("default-inserted-folder", "xml.rbxmx");
    let ours_id = UniqueId::new(1, 1, 1);
    let theirs_id = UniqueId::new(2, 2, 2);
    let base = read_fixture(&path)?;

    let ours = edit_bytes(&base, &path, |dom| {
        insert_child(
            dom,
            "Folder",
            InstanceBuilder::new("StringValue")
                .with_name("Item")
                .with_property("UniqueId", Variant::UniqueId(ours_id))
                .with_property("Value", "ours-only-content"),
        )?;
        Ok(())
    })?;
    let theirs = edit_bytes(&base, &path, |dom| {
        insert_child(
            dom,
            "Folder",
            InstanceBuilder::new("StringValue")
                .with_name("Item")
                .with_property("UniqueId", Variant::UniqueId(theirs_id))
                .with_property("Value", "theirs-only-content"),
        )?;
        Ok(())
    })?;

    let result = merge_fixture_bytes(&base, &ours, &theirs, &path)?;
    let (merged, _) = expect_clean(result);
    let decoded = decode_bytes(&merged, &path)?;

    let folder = find_by_name(&decoded, "Folder")?;
    // Both additions survive as separate instances, each keeping its own id.
    assert_eq!(child_unique_ids(&decoded, folder), {
        let mut expected = vec![ours_id, theirs_id];
        expected.sort_by_key(|id| id.to_string());
        expected
    });
    Ok(())
}

#[test]
fn differing_unique_id_addition_does_not_report_false_ambiguity() -> Result<()> {
    // `ours` adds two same-named siblings, each with its own UniqueId and
    // distinct content; `theirs` adds a third same-named sibling with yet another
    // UniqueId and its own distinct content. The `theirs` id matches neither
    // `ours` id, and its content is too dissimilar to either name-mate to clear
    // the similarity threshold, so it is a distinct new instance — not an
    // ambiguous match. No ambiguity is reported and all three instances survive.
    let path = model_path("default-inserted-folder", "xml.rbxmx");
    let ours_a = UniqueId::new(1, 1, 1);
    let ours_b = UniqueId::new(2, 2, 2);
    let theirs_c = UniqueId::new(3, 3, 3);
    let base = read_fixture(&path)?;

    let ours = edit_bytes(&base, &path, |dom| {
        for (id, value) in [(ours_a, "a"), (ours_b, "b")] {
            insert_child(
                dom,
                "Folder",
                InstanceBuilder::new("StringValue")
                    .with_name("Item")
                    .with_property("UniqueId", Variant::UniqueId(id))
                    .with_property("Value", value),
            )?;
        }
        Ok(())
    })?;
    let theirs = edit_bytes(&base, &path, |dom| {
        insert_child(
            dom,
            "Folder",
            InstanceBuilder::new("StringValue")
                .with_name("Item")
                .with_property("UniqueId", Variant::UniqueId(theirs_c))
                .with_property("Value", "c"),
        )?;
        Ok(())
    })?;

    let result = merge_fixture_bytes(&base, &ours, &theirs, &path)?;
    let (merged, diagnostics) = expect_clean(result);
    let decoded = decode_bytes(&merged, &path)?;

    assert!(
        !diagnostics
            .iter()
            .any(|diagnostic| diagnostic.code == "ambiguous_identity"),
        "an addition with an unmatched UniqueId is a new instance, not ambiguous, got {diagnostics:#?}"
    );

    let folder = find_by_name(&decoded, "Folder")?;
    assert_eq!(child_unique_ids(&decoded, folder), {
        let mut expected = vec![ours_a, ours_b, theirs_c];
        expected.sort_by_key(|id| id.to_string());
        expected
    });
    Ok(())
}

#[test]
fn one_ours_addition_contested_by_two_similar_theirs_is_ambiguous() -> Result<()> {
    // `ours` adds a single no-UniqueId child; `theirs` adds two with the same
    // (parent, class, name) and identical content, so both are equally good
    // similarity matches for the lone `ours` candidate. The pairing is 1:1, so
    // the candidate cannot be assigned to one of the two without an arbitrary,
    // order-dependent guess. This is the mirror of "two `ours` candidates, one
    // `theirs`" and must be declined the same way: report ambiguity and keep all
    // three additions distinct, rather than letting whichever `theirs` comes
    // first in document order claim the match.
    let path = model_path("default-inserted-folder", "xml.rbxmx");
    let base = read_fixture(&path)?;

    let ours = edit_bytes(&base, &path, |dom| {
        insert_child(
            dom,
            "Folder",
            InstanceBuilder::new("StringValue")
                .with_name("Item")
                .with_property("Value", "same"),
        )?;
        Ok(())
    })?;
    let theirs = edit_bytes(&base, &path, |dom| {
        for _ in 0..2 {
            insert_child(
                dom,
                "Folder",
                InstanceBuilder::new("StringValue")
                    .with_name("Item")
                    .with_property("Value", "same"),
            )?;
        }
        Ok(())
    })?;

    let result = merge_fixture_bytes(&base, &ours, &theirs, &path)?;
    let (merged, diagnostics) = expect_clean(result);
    let decoded = decode_bytes(&merged, &path)?;

    assert!(
        diagnostics
            .iter()
            .any(|diagnostic| diagnostic.code == "ambiguous_identity"),
        "a lone ours candidate contested by two similar theirs additions is ambiguous, got {diagnostics:#?}"
    );

    let folder = find_by_name(&decoded, "Folder")?;
    // No arbitrary pairing: all three additions survive distinctly.
    assert_eq!(
        child_string_values(&decoded, folder),
        vec!["same".to_owned(), "same".to_owned(), "same".to_owned()]
    );
    Ok(())
}

#[test]
fn rename_without_unique_id_merges_with_concurrent_edit() -> Result<()> {
    // The case that otherwise conflicts: one side renames an instance with no
    // UniqueId while the other edits it. Rename recovery keeps them the same
    // instance, so the rename and the edit compose cleanly.
    let path = model_path("default-inserted-folder", "xml.rbxmx");
    let base = {
        let bytes = read_fixture(&path)?;
        edit_bytes(&bytes, &path, |dom| {
            insert_child(
                dom,
                "Folder",
                InstanceBuilder::new("IntValue")
                    .with_name("Counter")
                    .with_property("Value", 1_i64),
            )?;
            Ok(())
        })?
    };
    let ours = edit_bytes(&base, &path, |dom| {
        rename_instance(dom, "Counter", "Tally")
    })?;
    let theirs = edit_bytes(&base, &path, |dom| {
        set_property(dom, "Counter", "Value", 5_i64)
    })?;

    let result = merge_fixture_bytes(&base, &ours, &theirs, &path)?;
    let (merged, diagnostics) = expect_clean(result);
    let decoded = decode_bytes(&merged, &path)?;

    let renamed = find_by_name(&decoded, "Tally")?;
    assert!(find_by_name(&decoded, "Counter").is_err());
    match decoded
        .get_by_ref(renamed)
        .and_then(|node| node.properties.get(&ustr("Value")))
    {
        Some(Variant::Int64(value)) => assert_eq!(*value, 5),
        other => panic!("expected the edited Value to survive the rename, got {other:?}"),
    }
    assert!(
        diagnostics
            .iter()
            .any(|diagnostic| diagnostic.code == "renamed_instance"),
        "expected a renamed_instance diagnostic, got {diagnostics:#?}"
    );
    Ok(())
}

#[test]
fn rename_with_regenerated_unique_id_is_recovered() -> Result<()> {
    // Studio can rename an instance *and* regenerate its UniqueId at once. The
    // rename heuristic must still recognize it as one instance: the regenerated
    // UniqueId is volatile metadata excluded from the similarity metric, so it
    // does not drag the score below the rename threshold. Were it counted, the
    // instance would read as a delete on one side and an add on the other,
    // turning the concurrent edit on the other side into a delete/modify
    // conflict instead of a clean merge.
    let path = model_path("default-inserted-folder", "xml.rbxmx");
    let base_id = UniqueId::new(5, 5, 5);
    let regenerated = UniqueId::new(6, 6, 6);
    let base = {
        let bytes = read_fixture(&path)?;
        edit_bytes(&bytes, &path, |dom| {
            insert_child(
                dom,
                "Folder",
                InstanceBuilder::new("IntValue")
                    .with_name("Counter")
                    .with_property("UniqueId", Variant::UniqueId(base_id))
                    .with_property("Value", 1_i64),
            )?;
            Ok(())
        })?
    };
    // ours renames the instance and Studio regenerates its UniqueId.
    let ours = edit_bytes(&base, &path, |dom| {
        rename_instance(dom, "Counter", "Tally")?;
        set_property(dom, "Tally", "UniqueId", Variant::UniqueId(regenerated))
    })?;
    // theirs edits the same instance's value, keeping its original identity.
    let theirs = edit_bytes(&base, &path, |dom| {
        set_property(dom, "Counter", "Value", 5_i64)
    })?;

    let result = merge_fixture_bytes(&base, &ours, &theirs, &path)?;
    let (merged, diagnostics) = expect_clean(result);
    let decoded = decode_bytes(&merged, &path)?;

    let renamed = find_by_name(&decoded, "Tally")?;
    assert!(find_by_name(&decoded, "Counter").is_err());
    match decoded
        .get_by_ref(renamed)
        .and_then(|node| node.properties.get(&ustr("Value")))
    {
        Some(Variant::Int64(value)) => assert_eq!(*value, 5),
        other => panic!("expected the edited Value to survive the rename, got {other:?}"),
    }
    assert!(
        diagnostics
            .iter()
            .any(|diagnostic| diagnostic.code == "renamed_instance"),
        "expected a renamed_instance diagnostic, got {diagnostics:#?}"
    );
    Ok(())
}

#[test]
fn dissimilar_delete_and_add_is_not_a_rename() -> Result<()> {
    // A genuine delete-plus-add of a property-poor instance is not similar
    // enough to be paired as a rename, so a concurrent edit to the deleted
    // instance still surfaces as a delete/modify conflict rather than silently
    // following the unrelated addition.
    let path = model_path("default-inserted-folder", "xml.rbxmx");
    let base = {
        let bytes = read_fixture(&path)?;
        edit_bytes(&bytes, &path, |dom| {
            insert_child(
                dom,
                "Folder",
                InstanceBuilder::new("IntValue")
                    .with_name("Old")
                    .with_property("Value", 1_i64),
            )?;
            Ok(())
        })?
    };
    let ours = edit_bytes(&base, &path, |dom| {
        delete_instance(dom, "Old")?;
        insert_child(
            dom,
            "Folder",
            InstanceBuilder::new("IntValue")
                .with_name("New")
                .with_property("Value", 999_i64),
        )?;
        Ok(())
    })?;
    let theirs = edit_bytes(&base, &path, |dom| {
        set_property(dom, "Old", "Value", 7_i64)
    })?;

    let result = merge_fixture_bytes(&base, &ours, &theirs, &path)?;
    let (conflicts, diagnostics) = expect_conflicted(result);

    assert!(
        conflicts
            .iter()
            .any(|conflict| conflict.kind == ConflictKind::DeleteModify),
        "expected a DeleteModify conflict, got {conflicts:#?}"
    );
    assert!(
        !diagnostics
            .iter()
            .any(|diagnostic| diagnostic.code == "renamed_instance"),
        "dissimilar instances should not be matched as a rename, got {diagnostics:#?}"
    );
    Ok(())
}


/// The text of a file, with unique ids left out: a tree draws a new one where one is
/// taken.
fn stable_text(bytes: &[u8], path: &str) -> Result<String> {
    let text = text_of(bytes, path)?;
    let mut out = String::new();
    for line in text.lines() {
        if !line.contains("UniqueId = ") {
            out.push_str(line);
            out.push('\n');
        }
    }
    Ok(out)
}

/// A side after a merge with itself.
fn normalized(side: &[u8], path: &str) -> Result<String> {
    let report = merge_fixture_bytes(side, side, side, path)?;
    let (merged, _) = expect_clean(report);
    stable_text(&merged, path)
}

#[test]
fn invariants_no_op_merge_is_clean_and_stable() -> Result<()> {
    let path = model_path("three-intvalues", "xml.rbxmx");
    let base = read_fixture(&path)?;
    let report = merge_fixture_bytes(&base, &base, &base, &path)?;
    let merged = report.merged.expect("no-op merge should be clean");
    assert_eq!(stable_text(&merged, &path)?, normalized(&merged, &path)?);
    Ok(())
}

#[test]
fn properties_no_op_merge_is_clean_and_stable() -> Result<()> {
    let path = model_path("three-intvalues", "xml.rbxmx");
    let base = read_fixture(&path)?;
    let report = merge_fixture_bytes(&base, &base, &base, &path)?;
    let merged = report.merged.expect("no-op merge should be clean");
    assert_eq!(text_of(&merged, &path)?, normalized(&merged, &path)?);
    Ok(())
}
