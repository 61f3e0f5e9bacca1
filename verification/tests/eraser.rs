use draw_engine::element::{DrawElement, DrawElementType};
use draw_engine::eraser::{erase_plan, erased_with, mark_sweep};

fn el(id: &str, kind: DrawElementType) -> DrawElement {
    DrawElement::new(id.to_string(), kind)
}

fn ids(v: &[&str]) -> Vec<String> {
    v.iter().map(|s| s.to_string()).collect()
}

fn sorted(mut v: Vec<String>) -> Vec<String> {
    v.sort();
    v
}

fn board() -> Vec<DrawElement> {
    let mut g1 = el("g1", DrawElementType::Rectangle);
    g1.group_ids = ids(&["inner", "g"]);
    let mut g2 = el("g2", DrawElementType::Rectangle);
    g2.group_ids = ids(&["g"]);
    let frame = el("f", DrawElementType::Frame);
    let mut child = el("c", DrawElementType::Ellipse);
    child.frame_id = Some("f".into());
    let mut boxed = el("box", DrawElementType::Rectangle);
    boxed.bound_text_id = Some("lbl".into());
    let mut label = el("lbl", DrawElementType::Text);
    label.container_id = Some("box".into());
    let mut arrow = el("a", DrawElementType::Arrow);
    arrow.start_binding = Some("box".into());
    arrow.end_binding = Some("x".into());
    vec![g1, g2, frame, child, boxed, label, arrow, el("x", DrawElementType::Diamond)]
}

#[test]
fn a_sweep_takes_whole_groups_frames_and_labels() {
    let b = board();
    assert_eq!(sorted(erased_with(&b, &ids(&["g1"]))), ids(&["g1", "g2"]));
    assert_eq!(sorted(erased_with(&b, &ids(&["f"]))), ids(&["c", "f"]));
    assert_eq!(sorted(erased_with(&b, &ids(&["lbl"]))), ids(&["box", "lbl"]));
    assert_eq!(sorted(erased_with(&b, &ids(&["box"]))), ids(&["box", "lbl"]));
    assert_eq!(sorted(erased_with(&b, &ids(&["x"]))), ids(&["x"]));
}

#[test]
fn erasing_takes_frame_contents_and_labels_and_lets_arrows_go() {
    let b = board();
    let plan = erase_plan(&b, &ids(&["f", "box"]));
    assert_eq!(sorted(plan.doomed), ids(&["box", "c", "f", "lbl"]));
    assert_eq!(plan.released, vec![("a".to_string(), true, false)]);
}

#[test]
fn a_sweep_marks_once_and_alt_unmarks() {
    let b = board();
    let mut erasing: Vec<String> = Vec::new();
    assert!(mark_sweep(&mut erasing, &b, &ids(&["g1"]), false));
    assert_eq!(sorted(erasing.clone()), ids(&["g1", "g2"]));
    assert!(!mark_sweep(&mut erasing, &b, &ids(&["g1"]), false));
    assert_eq!(sorted(erasing.clone()), ids(&["g1", "g2"]));
    assert!(mark_sweep(&mut erasing, &b, &ids(&["g2"]), true));
    assert!(erasing.is_empty());
    assert!(!mark_sweep(&mut erasing, &b, &ids(&["x"]), true));
}
