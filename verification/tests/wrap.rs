use draw_engine::element::{DrawElement, DrawElementType, TextAlign, VerticalAlign};
use draw_engine::wrap::wrap_plan;

fn el(id: &str, kind: DrawElementType) -> DrawElement {
    DrawElement::new(id.to_string(), kind)
}

fn ids(v: &[&str]) -> Vec<String> {
    v.iter().map(|s| s.to_string()).collect()
}

fn order(v: &[DrawElement]) -> Vec<String> {
    v.iter().map(|e| e.id.clone()).collect()
}

#[test]
fn a_wrapped_text_sits_on_its_rectangle_where_it_was() {
    let mut t = el("t", DrawElementType::Text);
    t.group_ids = ids(&["g"]);
    t.frame_id = Some("f".into());
    let board = vec![el("a", DrawElementType::Rectangle), t, el("b", DrawElementType::Ellipse)];
    let plan = wrap_plan(&board, &ids(&["t"]), &[true, true, true], &ids(&["box"]), &"#fff".to_string());
    assert_eq!(order(&plan.board), ids(&["a", "box", "t", "b"]));
    assert_eq!(plan.containers, ids(&["box"]));
    let rect = &plan.board[1];
    assert_eq!(rect.kind, DrawElementType::Rectangle);
    assert_eq!(rect.bound_text_id.as_deref(), Some("t"));
    assert_eq!(rect.group_ids, ids(&["g"]));
    assert_eq!(rect.frame_id.as_deref(), Some("f"));
    assert_eq!(rect.background_color, "#fff");
    let label = &plan.board[2];
    assert_eq!(label.container_id.as_deref(), Some("box"));
    assert_eq!(label.text_align, Some(TextAlign::Center));
    assert_eq!(label.vertical_align, Some(VerticalAlign::Middle));
}

#[test]
fn arrows_bound_to_a_wrapped_text_move_to_its_rectangle() {
    let mut arrow = el("ar", DrawElementType::Arrow);
    arrow.start_binding = Some("t".into());
    arrow.end_binding = Some("a".into());
    let board = vec![el("a", DrawElementType::Rectangle), el("t", DrawElementType::Text), arrow];
    let plan = wrap_plan(&board, &ids(&["t"]), &[true, true, true], &ids(&["box"]), &String::new());
    let moved = &plan.board[3];
    assert_eq!(moved.start_binding.as_deref(), Some("box"));
    assert_eq!(moved.end_binding.as_deref(), Some("a"));
}

#[test]
fn only_free_texts_that_may_be_restyled_are_wrapped() {
    let mut label = el("l", DrawElementType::Text);
    label.container_id = Some("a".into());
    let board = vec![el("a", DrawElementType::Rectangle), label, el("t", DrawElementType::Text), el("u", DrawElementType::Text)];
    let plan = wrap_plan(&board, &ids(&["u", "a", "l", "t"]), &[true, true, false, true], &ids(&["n1", "n2", "n3", "n4"]), &String::new());
    assert_eq!(plan.containers, ids(&["n1"]));
    assert_eq!(order(&plan.board), ids(&["a", "l", "t", "n1", "u"]));
}
