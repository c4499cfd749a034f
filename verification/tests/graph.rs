//! The passes over a merged graph, and the pieces that they are made of.

use rbx_merge::child_order::{merge_child_sequence, merge_insertions, preserves_base_order};
use rbx_merge::collisions::detect_unique_id_collisions;
use rbx_merge::cycles::{node_is_on_parent_cycle, path_in_graph};
use rbx_merge::graph::{MergedGraph, MergedInstance};
use rbx_merge::properties::MergedProperty;
use rbx_merge::semantic::ValueSource;
use rbx_merge::three_way::{three_way_side, Sides};
use rbx_merge::value::Value;
use rbx_merge::{ConflictKind, Resolutions, Side};
use rbx_types::{UniqueId, Variant};

fn instance(class: &str, name: &str, parent: Option<usize>, children: Vec<usize>) -> MergedInstance {
    MergedInstance {
        class: class.to_owned(),
        name: name.to_owned(),
        parent,
        children,
        properties: Vec::new(),
        referent: 1,
    }
}

/// A root with two children that share one UniqueId — the collision that no file can
/// hold, as colliding ids are made anew when it is read.
fn graph_with_duplicate_uid() -> MergedGraph {
    let mut graph = MergedGraph::new(3);
    graph.put(0, instance("DataModel", "DataModel", None, vec![1, 2]));
    for index in [1usize, 2] {
        let mut child = instance("Folder", &format!("F{index}"), Some(0), vec![]);
        child.referent = index as u128 + 1;
        child.properties.push((
            "UniqueId".to_owned(),
            MergedProperty {
                value: Value::Leaf(Variant::UniqueId(UniqueId::new(1, 1, 1))),
                source: ValueSource::Base,
            },
        ));
        graph.put(index, child);
    }
    graph
}

fn has_unique_id(graph: &MergedGraph, row: usize) -> bool {
    graph
        .get(row)
        .expect("row survives")
        .properties
        .iter()
        .any(|(key, _)| key == "UniqueId")
}

#[test]
fn collision_reported_without_resolution() {
    let mut graph = graph_with_duplicate_uid();
    let mut conflicts = Vec::new();
    detect_unique_id_collisions(&mut graph, &Resolutions::none(), &mut conflicts);
    assert_eq!(conflicts.len(), 1);
    assert_eq!(conflicts[0].kind, ConflictKind::UniqueIdCollision);
    assert_eq!(conflicts[0].path, "F2");
    assert_eq!(conflicts[0].base.as_ref().unwrap().text, "also assigned to F1");
    assert!(has_unique_id(&graph, 2));
}

#[test]
fn collision_resolved_drops_the_duplicate_id() {
    let mut graph = graph_with_duplicate_uid();
    let mut conflicts = Vec::new();
    detect_unique_id_collisions(&mut graph, &Resolutions::take(Side::Ours), &mut conflicts);
    assert!(conflicts.is_empty());
    // The first holder keeps its UniqueId; the duplicate loses it.
    assert!(has_unique_id(&graph, 1));
    assert!(!has_unique_id(&graph, 2));
}

#[test]
fn loops_are_found() {
    let mut graph = MergedGraph::new(4);
    graph.put(0, instance("DataModel", "DataModel", None, vec![]));
    graph.put(1, instance("Folder", "A", Some(2), vec![]));
    graph.put(2, instance("Folder", "B", Some(1), vec![]));
    graph.put(3, instance("Folder", "C", Some(1), vec![]));
    assert!(!node_is_on_parent_cycle(&graph, 0));
    assert!(node_is_on_parent_cycle(&graph, 1));
    assert!(node_is_on_parent_cycle(&graph, 2));
    // It leads into the loop, but the loop does not lead to it.
    assert!(!node_is_on_parent_cycle(&graph, 3));
    graph.set_parent(2, Some(0));
    assert!(!node_is_on_parent_cycle(&graph, 1));
    assert_eq!(path_in_graph(&graph, 3), "B.A.C");
    assert_eq!(path_in_graph(&graph, 0), "<root>");
}

#[test]
fn three_way_rule() {
    assert_eq!(three_way_side(true, true, true), Some(Side::Base));
    assert_eq!(three_way_side(false, true, false), Some(Side::Ours));
    assert_eq!(three_way_side(true, false, false), Some(Side::Theirs));
    assert_eq!(three_way_side(false, false, true), Some(Side::Ours));
    assert_eq!(three_way_side(false, false, false), None);
}

#[test]
fn insertions_stand_before_what_they_were_put_before() {
    assert_eq!(
        merge_insertions(&vec![1, 2], &vec![3, 1, 2], &vec![1, 4, 2, 5]),
        vec![3, 1, 4, 2, 5]
    );
    // Both put something in the same place: ours comes first.
    assert_eq!(merge_insertions(&vec![1], &vec![2, 1], &vec![3, 1]), vec![2, 3, 1]);
    assert_eq!(merge_insertions(&vec![], &vec![1], &vec![1, 2]), vec![1, 2]);
}

#[test]
fn order_is_kept_or_not() {
    assert!(preserves_base_order(&vec![1, 2, 3], &vec![1, 4, 3]));
    assert!(!preserves_base_order(&vec![1, 2, 3], &vec![3, 1]));
}

#[test]
fn child_sequences_merge_or_conflict() {
    let merged = |base: Vec<usize>, ours: Vec<usize>, theirs: Vec<usize>| {
        merge_child_sequence(&Sides { base, ours, theirs })
    };
    assert_eq!(merged(vec![1, 2], vec![2, 1], vec![1, 2]), Some(vec![2, 1]));
    assert_eq!(merged(vec![1, 2], vec![1, 2], vec![2, 1]), Some(vec![2, 1]));
    assert_eq!(merged(vec![1, 2], vec![2, 1], vec![2, 1]), Some(vec![2, 1]));
    assert_eq!(merged(vec![1, 2], vec![1, 3, 2], vec![1, 2, 4]), Some(vec![1, 3, 2, 4]));
    assert_eq!(merged(vec![1, 2, 3], vec![2, 1, 3], vec![1, 3, 2]), None);
}
