use draw_engine::element::{DrawElement, DrawElementType};
use draw_engine::panel::{color_domain_of, panel_selection};
use draw_engine::style::ColorDomain;

fn el(id: &str, kind: DrawElementType) -> DrawElement {
    DrawElement::new(id.to_string(), kind)
}

fn ids(v: &[&str]) -> Vec<String> {
    v.iter().map(|s| s.to_string()).collect()
}

#[test]
fn the_panel_reads_a_carried_label_through_its_shape() {
    let mut shape = el("s", DrawElementType::Rectangle);
    shape.bound_text_id = Some("t".into());
    let mut label = el("t", DrawElementType::Text);
    label.container_id = Some("s".into());
    let mut gone = el("g", DrawElementType::Ellipse);
    gone.is_deleted = true;
    let board = vec![shape, label, gone, el("x", DrawElementType::Diamond)];
    assert_eq!(panel_selection(&board, &ids(&["t", "s", "g", "x", "nowhere"])), vec![0, 3]);
    assert_eq!(panel_selection(&board, &ids(&["t"])), vec![1]);
}

#[test]
fn a_pick_reaches_notes_shapes_or_both() {
    assert_eq!(color_domain_of(true, false, false), ColorDomain::Sticky);
    assert_eq!(color_domain_of(true, true, false), ColorDomain::Mixed);
    assert_eq!(color_domain_of(false, true, true), ColorDomain::Regular);
    assert_eq!(color_domain_of(false, false, true), ColorDomain::Sticky);
    assert_eq!(color_domain_of(false, false, false), ColorDomain::Regular);
}
