//! What holds of every merge, on files of some size.

use std::collections::HashSet;
use std::io::Cursor;

use rbx_dom_weak::{ustr, InstanceBuilder, WeakDom};
use rbx_merge::{
    merge_files, textconv, ConflictKind, FileInput, MergeReport, MergeSettings, Resolutions, Side,
    TextconvOptions,
};
use rbx_types::{Attributes, Ref, UniqueId, Variant};

const PATH: &str = "model.rbxmx";

fn folder(name: &str) -> InstanceBuilder {
    InstanceBuilder::new("Folder").with_name(name)
}

fn value(name: &str, value: i64) -> InstanceBuilder {
    InstanceBuilder::new("IntValue").with_name(name).with_property("Value", value)
}

/// Folders with values, a reference from one folder into the other, attributes and
/// unique ids.
fn base_model() -> WeakDom {
    let target = value("Target", 3).with_property("UniqueId", UniqueId::new(1, 1, 1));
    let referent = target.referent();
    WeakDom::new(
        InstanceBuilder::new("DataModel")
            .with_child(
                folder("A")
                    .with_property("UniqueId", UniqueId::new(2, 1, 1))
                    .with_property("Attributes", Attributes::new().with("Shared", 1.0_f64))
                    .with_child(value("One", 1))
                    .with_child(value("Two", 2))
                    .with_child(target),
            )
            .with_child(
                folder("B").with_child(
                    InstanceBuilder::new("ObjectValue")
                        .with_name("Pointer")
                        .with_property("Value", Variant::Ref(referent)),
                ),
            ),
    )
}

fn encode(dom: &WeakDom) -> Vec<u8> {
    let options = rbx_xml::EncodeOptions::new()
        .property_behavior(rbx_xml::EncodePropertyBehavior::WriteUnknown);
    let mut bytes = Vec::new();
    rbx_xml::to_writer(&mut bytes, dom, dom.root().children(), options).expect("encode");
    bytes
}

fn decode(bytes: &[u8]) -> WeakDom {
    let options = rbx_xml::DecodeOptions::new()
        .property_behavior(rbx_xml::DecodePropertyBehavior::ReadUnknown);
    rbx_xml::from_reader(Cursor::new(bytes), options).expect("decode")
}

fn edited(bytes: &[u8], edit: impl FnOnce(&mut WeakDom)) -> Vec<u8> {
    let mut dom = decode(bytes);
    edit(&mut dom);
    encode(&dom)
}

fn find(dom: &WeakDom, name: &str) -> Ref {
    dom.descendants().find(|i| i.name == name).expect("instance").referent()
}

fn has(dom: &WeakDom, name: &str) -> bool {
    dom.descendants().any(|i| i.name == name)
}

fn set(dom: &mut WeakDom, name: &str, key: &str, value: impl Into<Variant>) {
    let referent = find(dom, name);
    dom.get_by_ref_mut(referent).unwrap().properties.insert(ustr(key), value.into());
}

fn rename(dom: &mut WeakDom, from: &str, to: &str) {
    let referent = find(dom, from);
    dom.get_by_ref_mut(referent).unwrap().name = to.to_owned();
}

fn delete(dom: &mut WeakDom, name: &str) {
    let referent = find(dom, name);
    dom.destroy(referent);
}

fn add(dom: &mut WeakDom, parent: &str, child: InstanceBuilder) {
    let parent = find(dom, parent);
    dom.insert(parent, child);
}

fn put(dom: &mut WeakDom, child: &str, parent: &str) {
    let child = find(dom, child);
    let parent = find(dom, parent);
    dom.transfer_within(child, parent);
}

fn merge_with(base: &[u8], ours: &[u8], theirs: &[u8], resolutions: Resolutions) -> MergeReport {
    merge_files(
        FileInput::new(base).with_path_hint(PATH),
        FileInput::new(ours).with_path_hint(PATH),
        FileInput::new(theirs).with_path_hint(PATH),
        MergeSettings { resolutions, ..Default::default() },
    )
    .expect("merge")
}

fn merge(base: &[u8], ours: &[u8], theirs: &[u8]) -> MergeReport {
    merge_with(base, ours, theirs, Resolutions::none())
}

fn clean(report: MergeReport) -> Vec<u8> {
    assert!(report.conflicts.is_empty(), "{:#?}", report.conflicts);
    report.merged.expect("merged")
}

/// The text of a file without unique ids, which may be made anew.
fn text(bytes: &[u8]) -> String {
    let text = textconv(bytes, Some(PATH), TextconvOptions::all()).expect("textconv");
    text.lines().filter(|line| !line.contains("UniqueId = ")).map(|l| format!("{l}\n")).collect()
}

/// Changes of every kind.
fn many_changes(base: &[u8]) -> Vec<u8> {
    edited(base, |dom| {
        set(dom, "One", "Value", 10_i64);
        rename(dom, "B", "Bee");
        add(dom, "A", value("Three", 3));
        delete(dom, "Two");
        put(dom, "One", "Bee");
        set(dom, "A", "Attributes", Attributes::new().with("Shared", 2.0_f64).with("More", true));
    })
}

#[test]
fn changes_of_one_side_are_taken() {
    let base = encode(&base_model());
    let side = many_changes(&base);
    assert_eq!(text(&clean(merge(&base, &side, &base))), text(&side));
    assert_eq!(text(&clean(merge(&base, &base, &side))), text(&side));
}

#[test]
fn same_changes_on_both_sides_are_taken() {
    let base = encode(&base_model());
    let side = many_changes(&base);
    assert_eq!(text(&clean(merge(&base, &side, &side))), text(&side));
}

#[test]
fn merging_a_file_with_itself_gives_it_back() {
    let base = encode(&base_model());
    let once = clean(merge(&base, &base, &base));
    assert_eq!(text(&once), text(&base));
    assert_eq!(text(&clean(merge(&once, &once, &once))), text(&once));
}

#[test]
fn merges_are_repeatable() {
    let base = encode(&base_model());
    let ours = edited(&base, |dom| add(dom, "A", value("New", 1)));
    let theirs = edited(&base, |dom| add(dom, "B", value("New", 2)));
    let first = merge(&base, &ours, &theirs);
    let second = merge(&base, &ours, &theirs);
    assert_eq!(first.diagnostics, second.diagnostics);
    assert_eq!(text(&clean(first)), text(&clean(second)));

    let other = edited(&base, |dom| set(dom, "One", "Value", 7_i64));
    let third = edited(&base, |dom| set(dom, "One", "Value", 8_i64));
    assert_eq!(merge(&base, &other, &third).conflicts, merge(&base, &other, &third).conflicts);
}

#[test]
fn regenerated_ids_never_conflict() {
    let base = encode(&base_model());
    let with_ids = |index: u32| {
        edited(&base, |dom| {
            set(dom, "A", "UniqueId", UniqueId::new(index, 7, 7));
            set(dom, "Target", "UniqueId", UniqueId::new(index, 8, 8));
        })
    };
    let merged = clean(merge(&base, &with_ids(10), &with_ids(20)));
    assert_eq!(text(&merged), text(&base));
}

#[test]
fn attribute_edits_compose() {
    let base = encode(&base_model());
    let ours = edited(&base, |dom| {
        set(dom, "A", "Attributes", Attributes::new().with("Shared", 1.0_f64).with("Ours", true));
    });
    let theirs = edited(&base, |dom| {
        set(dom, "A", "Attributes", Attributes::new().with("Shared", 9.0_f64).with("Theirs", true));
    });
    let merged = decode(&clean(merge(&base, &ours, &theirs)));
    let a = merged.get_by_ref(find(&merged, "A")).unwrap();
    let Some(Variant::Attributes(attributes)) = a.properties.get(&ustr("Attributes")) else {
        panic!("no attributes")
    };
    assert_eq!(attributes.get("Ours"), Some(&Variant::Bool(true)));
    assert_eq!(attributes.get("Theirs"), Some(&Variant::Bool(true)));
    assert_eq!(attributes.get("Shared"), Some(&Variant::Float64(9.0)));
}

#[test]
fn clean_merges_keep_what_both_sides_keep() {
    let base = encode(&base_model());
    let ours = edited(&base, |dom| {
        delete(dom, "Two");
        add(dom, "B", value("Ours", 1));
    });
    let theirs = edited(&base, |dom| {
        rename(dom, "One", "Uno");
        add(dom, "A", value("Theirs", 1));
    });
    let merged = decode(&clean(merge(&base, &ours, &theirs)));
    for name in ["A", "B", "Uno", "Target", "Pointer", "Ours", "Theirs"] {
        assert!(has(&merged, name), "{name} is lost");
    }
    assert!(!has(&merged, "Two"));
}

#[test]
fn clean_merges_have_distinct_ids_and_no_dangling_references() {
    let base = encode(&base_model());
    let ours = edited(&base, |dom| put(dom, "Target", "B"));
    let theirs = edited(&base, |dom| add(dom, "A", value("New", 1)));
    let merged = decode(&clean(merge(&base, &ours, &theirs)));
    let mut ids = HashSet::new();
    for instance in merged.descendants() {
        if let Some(Variant::UniqueId(id)) = instance.properties.get(&ustr("UniqueId")) {
            assert!(id.is_nil() || ids.insert(*id), "{id:?} twice");
        }
        for property in instance.properties.values() {
            if let Variant::Ref(referent) = property {
                assert!(referent.is_none() || merged.get_by_ref(*referent).is_some());
            }
        }
    }
    let pointer = merged.get_by_ref(find(&merged, "Pointer")).unwrap();
    assert_eq!(
        pointer.properties.get(&ustr("Value")),
        Some(&Variant::Ref(find(&merged, "Target")))
    );
}

#[test]
fn taking_a_side_leaves_no_conflict() {
    let base = encode(&base_model());
    let ours = edited(&base, |dom| {
        set(dom, "One", "Value", 10_i64);
        rename(dom, "Two", "Zwei");
        put(dom, "Target", "B");
        delete(dom, "Pointer");
    });
    let theirs = edited(&base, |dom| {
        set(dom, "One", "Value", 20_i64);
        rename(dom, "Two", "Deux");
        add(dom, "A", folder("C"));
        put(dom, "Target", "C");
        set(dom, "Pointer", "Extra", true);
    });
    let undecided = merge(&base, &ours, &theirs);
    assert!(!undecided.conflicts.is_empty());
    let taken = decode(&clean(merge_with(&base, &ours, &theirs, Resolutions::take(Side::Ours))));
    assert!(has(&taken, "Zwei") && !has(&taken, "Pointer"));
    let taken = decode(&clean(merge_with(&base, &ours, &theirs, Resolutions::take(Side::Theirs))));
    assert!(has(&taken, "Deux") && has(&taken, "Pointer"));
}

#[test]
fn taking_a_side_breaks_every_loop() {
    // The parents of ours close another loop, through a row that theirs moved.
    let known = |name: &str, index: u32| {
        folder(name).with_property("UniqueId", UniqueId::new(index, 1, 1))
    };
    let base = encode(&WeakDom::new(
        InstanceBuilder::new("DataModel")
            .with_child(known("X", 1).with_child(known("M", 2)))
            .with_child(known("Y", 3)),
    ));
    let ours = edited(&base, |dom| put(dom, "Y", "M"));
    let theirs = edited(&base, |dom| {
        put(dom, "M", "Y");
        put(dom, "X", "M");
    });
    let parent = |dom: &WeakDom, name: &str| {
        let above = dom.get_by_ref(find(dom, name)).unwrap().parent();
        dom.get_by_ref(above).unwrap().name.clone()
    };
    let undecided = merge(&base, &ours, &theirs);
    assert!(undecided.merged.is_none());
    assert!(undecided.conflicts.iter().all(|c| c.kind == ConflictKind::ParentCycle));
    let taken = decode(&clean(merge_with(&base, &ours, &theirs, Resolutions::take(Side::Ours))));
    assert_eq!(parent(&taken, "M"), "X");
    assert_eq!(parent(&taken, "Y"), "M");
    assert_eq!(find(&taken, "X"), taken.root().children()[0]);
    let taken = decode(&clean(merge_with(&base, &ours, &theirs, Resolutions::take(Side::Theirs))));
    assert_eq!(parent(&taken, "X"), "M");
    assert_eq!(parent(&taken, "M"), "Y");
}

#[test]
fn a_unique_id_that_all_files_have_is_written() {
    let base = encode(&base_model());
    let ours = edited(&base, |dom| rename(dom, "Target", "Goal"));
    let theirs = edited(&base, |dom| put(dom, "Target", "B"));
    let merged = decode(&clean(merge(&base, &ours, &theirs)));
    let goal = merged.get_by_ref(find(&merged, "Goal")).unwrap();
    assert_eq!(
        goal.properties.get(&ustr("UniqueId")),
        Some(&Variant::UniqueId(UniqueId::new(1, 1, 1)))
    );
}

#[test]
fn decisions_change_no_clean_merge() {
    let base = encode(&base_model());
    let ours = edited(&base, |dom| set(dom, "One", "Value", 10_i64));
    let theirs = edited(&base, |dom| rename(dom, "B", "Bee"));
    let plain = text(&clean(merge(&base, &ours, &theirs)));
    for side in [Side::Base, Side::Ours, Side::Theirs] {
        let decided = merge_with(&base, &ours, &theirs, Resolutions::take(side));
        assert_eq!(text(&clean(decided)), plain);
    }
}

#[test]
fn exchanging_the_sides_exchanges_no_conflict() {
    let base = encode(&base_model());
    let ours = edited(&base, |dom| set(dom, "One", "Value", 10_i64));
    let theirs = edited(&base, |dom| delete(dom, "One"));
    assert!(merge(&base, &ours, &theirs).merged.is_none());
    assert!(merge(&base, &theirs, &ours).merged.is_none());
    let theirs = edited(&base, |dom| delete(dom, "Two"));
    assert_eq!(
        text(&clean(merge(&base, &ours, &theirs))),
        text(&clean(merge(&base, &theirs, &ours)))
    );
}

#[test]
fn names_that_recur_do_not_disturb_a_self_merge() {
    let dom = WeakDom::new(InstanceBuilder::new("DataModel").with_child(
        folder("A").with_child(value("Same", 1)).with_child(value("Same", 2)).with_child(
            folder("Same").with_child(value("Same", 3)).with_child(value("Same", 3)),
        ),
    ));
    let base = encode(&dom);
    let once = clean(merge(&base, &base, &base));
    assert_eq!(text(&once), text(&base));
    assert_eq!(text(&clean(merge(&once, &once, &once))), text(&once));
}

#[test]
fn a_shared_unique_id_outweighs_name_and_place() {
    // One side moves the instance and gives it another name, the other sets a property.
    let base = encode(&base_model());
    let ours = edited(&base, |dom| {
        put(dom, "Target", "B");
        rename(dom, "Target", "Moved");
    });
    let theirs = edited(&base, |dom| set(dom, "Target", "Value", 30_i64));
    let merged = decode(&clean(merge(&base, &ours, &theirs)));
    let moved = merged.get_by_ref(find(&merged, "Moved")).unwrap();
    assert!(!has(&merged, "Target"));
    assert_eq!(moved.parent(), find(&merged, "B"));
    assert_eq!(moved.properties.get(&ustr("Value")), Some(&Variant::Int64(30)));
    assert_eq!(
        moved.properties.get(&ustr("UniqueId")),
        Some(&Variant::UniqueId(UniqueId::new(1, 1, 1)))
    );
}

#[test]
fn services_are_matched_by_class() {
    // Each side gives the one service of its class another name.
    let base = encode(&WeakDom::new(
        InstanceBuilder::new("DataModel").with_child(
            InstanceBuilder::new("Workspace").with_name("Workspace").with_child(value("One", 1)),
        ),
    ));
    let ours = edited(&base, |dom| {
        rename(dom, "Workspace", "World");
        add(dom, "World", value("Two", 2));
        add(dom, "World", value("Three", 3));
    });
    let theirs = edited(&base, |dom| set(dom, "One", "Value", 10_i64));
    let merged = decode(&clean(merge(&base, &ours, &theirs)));
    let world = merged.get_by_ref(find(&merged, "World")).unwrap();
    assert_eq!(world.children().len(), 3);
    assert!(!has(&merged, "Workspace"));
    let one = merged.get_by_ref(find(&merged, "One")).unwrap();
    assert_eq!(one.properties.get(&ustr("Value")), Some(&Variant::Int64(10)));
}

#[test]
fn additions_are_one_whichever_side_is_ours() {
    // Both sides add the same instance, with different values of one property.
    let base = encode(&base_model());
    let with = |number: i64| edited(&base, |dom| add(dom, "B", value("New", number)));
    let (ours, theirs) = (with(1), with(2));
    for report in [merge(&base, &ours, &theirs), merge(&base, &theirs, &ours)] {
        assert!(report.merged.is_none());
        assert_eq!(report.conflicts.len(), 1);
        assert_eq!(report.conflicts[0].kind, ConflictKind::PropertyValue);
        assert_eq!(report.conflicts[0].path, "B.New");
    }
    let same = with(1);
    let merged = decode(&clean(merge(&base, &ours, &same)));
    assert_eq!(merged.descendants().filter(|i| i.name == "New").count(), 1);
}
