use draw_engine::delete::delete_plan;
use draw_engine::element::{DrawElement, DrawElementType};

fn el(id: &str, kind: DrawElementType) -> DrawElement {
    DrawElement::new(id.to_string(), kind)
}

fn ids(v: &[&str]) -> Vec<String> {
    v.iter().map(|s| s.to_string()).collect()
}

fn sorted(mut v: Vec<String>) -> Vec<String> {
    v.sort();
    v
}

#[test]
fn a_deleted_frame_keeps_its_children_and_a_shape_takes_its_label() {
    let frame = el("f", DrawElementType::Frame);
    let mut child = el("c", DrawElementType::Rectangle);
    child.frame_id = Some("f".into());
    let mut shape = el("s", DrawElementType::Rectangle);
    shape.bound_text_id = Some("sl".into());
    let mut shape_label = el("sl", DrawElementType::Text);
    shape_label.container_id = Some("s".into());
    let mut other = el("x", DrawElementType::Rectangle);
    other.bound_text_id = Some("xl".into());
    let mut other_label = el("xl", DrawElementType::Text);
    other_label.container_id = Some("x".into());
    let board = vec![frame, child, shape, shape_label, other, other_label];
    let plan = delete_plan(&board, &ids(&["f", "c", "s", "xl"]), None);
    assert_eq!(sorted(plan.kept), ids(&["c"]));
    assert_eq!(sorted(plan.doomed), ids(&["f", "s", "sl", "xl"]));
    assert_eq!(sorted(plan.unbound), ids(&["x"]));
    assert_eq!(plan.freed.len(), 1);
    assert_eq!(plan.freed[0].id, "c");
    assert_eq!(plan.freed[0].frame_id, None);
    assert_eq!(plan.selection, ids(&["c"]));
}

#[test]
fn kept_children_become_the_selection_with_their_groups() {
    let frame = el("f", DrawElementType::Frame);
    let mut child = el("c", DrawElementType::Rectangle);
    child.frame_id = Some("f".into());
    child.group_ids = ids(&["g"]);
    let mut mate = el("m", DrawElementType::Rectangle);
    mate.group_ids = ids(&["g"]);
    let board = vec![frame, child, mate];
    let plan = delete_plan(&board, &ids(&["f"]), None);
    assert_eq!(sorted(plan.doomed), ids(&["f"]));
    assert_eq!(sorted(plan.selection), ids(&["c", "m"]));
    assert!(plan.freed.iter().all(|e| e.frame_id.is_none()));
}

#[test]
fn a_kept_childs_label_stays_with_it() {
    let frame = el("f", DrawElementType::Frame);
    let mut child = el("c", DrawElementType::Rectangle);
    child.frame_id = Some("f".into());
    child.bound_text_id = Some("t".into());
    let mut label = el("t", DrawElementType::Text);
    label.container_id = Some("c".into());
    let board = vec![frame, child, label];
    let plan = delete_plan(&board, &ids(&["f", "t"]), None);
    assert_eq!(sorted(plan.doomed), ids(&["f"]));
    assert_eq!(sorted(plan.kept), ids(&["c"]));
    assert!(plan.unbound.is_empty());
}

#[test]
fn deleting_plain_shapes_takes_just_them() {
    let board = vec![el("a", DrawElementType::Rectangle), el("b", DrawElementType::Ellipse)];
    let plan = delete_plan(&board, &ids(&["a"]), None);
    assert_eq!(plan.doomed, ids(&["a"]));
    assert!(plan.kept.is_empty());
    assert!(plan.unbound.is_empty());
    assert!(plan.freed.is_empty());
    assert!(plan.selection.is_empty());
}
