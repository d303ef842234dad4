//! Tests of the document model: construction, mutation, navigation,
//! selection, icons, and removal.

use mindmap_core::errors::MapError;
use mindmap_core::model::MindMap;
use mindmap_core::model::Navigation;

#[test]
fn new_document_has_only_an_empty_root() {
    let m = MindMap::new();
    assert_eq!(m.root_id(), 0);
    assert_eq!(m.selected_id(), 0);
    assert!(m.contains_node(0));
    assert_eq!(m.node_text(0).unwrap().as_str(), "");
    assert_eq!(m.node_children(0).unwrap().len(), 0);
    assert_eq!(m.node_icons(0).unwrap().len(), 0);
    assert_eq!(m.node_parent(0).unwrap(), None);
}

#[test]
fn add_child_appends_and_selects() {
    let mut m = MindMap::new();
    let a = m.add_child(0, "A".to_string()).unwrap();
    assert_eq!(a, 1);
    assert_eq!(m.selected_id(), a);
    assert_eq!(m.node_text(a).unwrap().as_str(), "A");
    assert_eq!(m.node_parent(a).unwrap(), Some(0));
    assert_eq!(m.node_children(0).unwrap(), vec![a]);
    let b = m.add_child(0, "B".to_string()).unwrap();
    assert_eq!(m.node_children(0).unwrap(), vec![a, b]);
}

#[test]
fn add_child_unknown_parent_is_not_found() {
    let mut m = MindMap::new();
    assert_eq!(m.add_child(7, "X".to_string()), Err(MapError::NotFound));
    assert!(m.contains_node(0));
    assert_eq!(m.node_children(0).unwrap().len(), 0);
}

#[test]
fn add_sibling_inserts_immediately_after() {
    let mut m = MindMap::new();
    let a = m.add_child(0, "A".to_string()).unwrap();
    let c = m.add_child(0, "C".to_string()).unwrap();
    let b = m.add_sibling(a, "B".to_string()).unwrap();
    assert_eq!(m.node_children(0).unwrap(), vec![a, b, c]);
    assert_eq!(m.selected_id(), b);
    assert_eq!(m.node_parent(b).unwrap(), Some(0));
}

#[test]
fn add_sibling_of_root_is_invalid_operation() {
    let mut m = MindMap::new();
    assert_eq!(m.add_sibling(0, "X".to_string()), Err(MapError::InvalidOperation));
    assert_eq!(m.node_children(0).unwrap().len(), 0);
}

#[test]
fn add_sibling_unknown_node_is_not_found() {
    let mut m = MindMap::new();
    assert_eq!(m.add_sibling(9, "X".to_string()), Err(MapError::NotFound));
}

#[test]
fn change_node_replaces_text_in_place() {
    let mut m = MindMap::new();
    let a = m.add_child(0, "old".to_string()).unwrap();
    m.change_node(a, "new".to_string()).unwrap();
    assert_eq!(m.node_text(a).unwrap().as_str(), "new");
    assert_eq!(m.node_children(0).unwrap(), vec![a]);
    assert_eq!(m.change_node(42, "x".to_string()), Err(MapError::NotFound));
}

#[test]
fn select_node_moves_selection() {
    let mut m = MindMap::new();
    let a = m.add_child(0, "A".to_string()).unwrap();
    let _b = m.add_child(0, "B".to_string()).unwrap();
    m.select_node(a).unwrap();
    assert_eq!(m.selected_id(), a);
    assert_eq!(m.select_node(99), Err(MapError::NotFound));
    assert_eq!(m.selected_id(), a);
}

#[test]
fn icons_append_and_pop() {
    let mut m = MindMap::new();
    let a = m.add_child(0, "A".to_string()).unwrap();
    m.add_icon(a, "star".to_string()).unwrap();
    m.add_icon(a, "flag".to_string()).unwrap();
    let icons = m.node_icons(a).unwrap();
    assert_eq!(icons.len(), 2);
    assert_eq!(icons[0].as_str(), "star");
    assert_eq!(icons[1].as_str(), "flag");
    m.remove_last_icon(a).unwrap();
    assert_eq!(m.node_icons(a).unwrap().len(), 1);
    assert_eq!(m.add_icon(5, "x".to_string()), Err(MapError::NotFound));
    assert_eq!(m.remove_last_icon(5), Err(MapError::NotFound));
}

#[test]
fn removing_last_icon_of_bare_node_is_a_no_op() {
    let mut m = MindMap::new();
    let a = m.add_child(0, "A".to_string()).unwrap();
    assert_eq!(m.remove_last_icon(a), Ok(()));
    assert_eq!(m.node_icons(a).unwrap().len(), 0);
}

#[test]
fn scenario_two_children_and_sibling_navigation() {
    // New document, a child A of the root, a sibling B of A: the root has
    // children [A, B]; from A the cursor moves to B, and moving further is
    // a no-op.
    let mut m = MindMap::new();
    let a = m.add_child(0, "A".to_string()).unwrap();
    let b = m.add_sibling(a, "B".to_string()).unwrap();
    assert_eq!(m.node_children(0).unwrap(), vec![a, b]);
    m.select_node(a).unwrap();
    m.navigate(Navigation::NextSibling);
    assert_eq!(m.selected_id(), b);
    m.navigate(Navigation::NextSibling);
    assert_eq!(m.selected_id(), b);
}

#[test]
fn navigation_boundaries_are_no_ops() {
    let mut m = MindMap::new();
    let a = m.add_child(0, "A".to_string()).unwrap();
    m.select_node(0).unwrap();
    m.navigate(Navigation::Parent);
    assert_eq!(m.selected_id(), 0);
    m.navigate(Navigation::FirstChild);
    assert_eq!(m.selected_id(), a);
    m.navigate(Navigation::FirstChild);
    assert_eq!(m.selected_id(), a);
    m.navigate(Navigation::PrevSibling);
    assert_eq!(m.selected_id(), a);
    m.navigate(Navigation::Parent);
    assert_eq!(m.selected_id(), 0);
}

#[test]
fn remove_node_removes_exactly_the_subtree() {
    let mut m = MindMap::new();
    let a = m.add_child(0, "A".to_string()).unwrap();
    let b = m.add_child(0, "B".to_string()).unwrap();
    let a1 = m.add_child(a, "A1".to_string()).unwrap();
    let a2 = m.add_child(a, "A2".to_string()).unwrap();
    let a11 = m.add_child(a1, "A11".to_string()).unwrap();
    m.remove_node(a).unwrap();
    assert!(!m.contains_node(a));
    assert!(!m.contains_node(a1));
    assert!(!m.contains_node(a2));
    assert!(!m.contains_node(a11));
    assert!(m.contains_node(0));
    assert!(m.contains_node(b));
    assert_eq!(m.node_children(0).unwrap(), vec![b]);
}

#[test]
fn remove_node_moves_selection_to_former_parent() {
    let mut m = MindMap::new();
    let a = m.add_child(0, "A".to_string()).unwrap();
    let a1 = m.add_child(a, "A1".to_string()).unwrap();
    assert_eq!(m.selected_id(), a1);
    m.remove_node(a).unwrap();
    assert_eq!(m.selected_id(), 0);
}

#[test]
fn remove_root_always_fails() {
    let mut m = MindMap::new();
    assert_eq!(m.remove_node(0), Err(MapError::InvalidOperation));
    let _a = m.add_child(0, "A".to_string()).unwrap();
    assert_eq!(m.remove_node(0), Err(MapError::InvalidOperation));
    assert!(m.contains_node(0));
    assert_eq!(m.remove_node(77), Err(MapError::NotFound));
}

#[test]
fn geometry_gives_distinct_rows_and_deeper_columns() {
    let mut m = MindMap::new();
    let a = m.add_child(0, "Alpha".to_string()).unwrap();
    let b = m.add_child(0, "B".to_string()).unwrap();
    let a1 = m.add_child(a, "A1".to_string()).unwrap();
    let (rx, ry, rw, rh) = m.node_geometry(0).unwrap();
    let (ax, ay, aw, _ah) = m.node_geometry(a).unwrap();
    let (bx, by, _bw, _bh) = m.node_geometry(b).unwrap();
    let (cx, cy, _cw, _ch) = m.node_geometry(a1).unwrap();
    assert_eq!((rx, ry, rw, rh), (0, 0, 0, 1));
    assert_eq!(aw, 5);
    assert_eq!(ax, 1);
    assert_eq!(bx, 1);
    assert_eq!(cx, 2);
    let rows = vec![ry, ay, by, cy];
    for i in 0..rows.len() {
        for j in 0..rows.len() {
            if i != j {
                assert_ne!(rows[i], rows[j]);
            }
        }
    }
    assert_eq!(m.node_geometry(9), Err(MapError::NotFound));
}

#[test]
fn error_descriptions_are_stable() {
    assert_eq!(MapError::NotFound.describe(), "node not found");
    assert_eq!(MapError::InvalidOperation.describe(), "operation not allowed");
    assert_eq!(MapError::DecodeError(3).describe(), "malformed document content");
    assert_eq!(MapError::EncodeError.describe(), "document cannot be encoded");
    assert_eq!(MapError::UnsupportedVariant.describe(), "unsupported format variant");
    assert_eq!(MapError::IoFailure("gone".to_string()).describe(), "input/output failure");
    assert_eq!(
        MapError::NoActivePath.describe(),
        "no path specified and no current path defined"
    );
    assert_eq!(MapError::LockPoisoned.describe(), "state lock was poisoned");
}
