use draw_engine::element::{DrawElement, DrawElementType};
use draw_engine::materialize::materialize_within;

fn el(id: &str, kind: DrawElementType, groups: &[&str]) -> DrawElement {
    let mut e = DrawElement::new(id.to_string(), kind);
    e.group_ids = groups.iter().map(|g| g.to_string()).collect();
    e.version = 7;
    e
}

fn ids(v: &[&str]) -> Vec<String> {
    v.iter().map(|s| s.to_string()).collect()
}

#[test]
fn copies_get_new_ids_and_keep_their_ties_among_themselves() {
    let mut boxed = el("box", DrawElementType::Rectangle, &["g"]);
    boxed.bound_text_id = Some("t".into());
    let mut label = el("t", DrawElementType::Text, &["g"]);
    label.container_id = Some("box".into());
    let mut arrow = el("ar", DrawElementType::Arrow, &[]);
    arrow.start_binding = Some("box".into());
    arrow.end_binding = Some("elsewhere".into());
    let mut gone = el("gone", DrawElementType::Ellipse, &[]);
    gone.is_deleted = true;
    let source = vec![boxed, label, gone, arrow];
    let got = materialize_within(&source, None, &ids(&["n0", "n1", "n2", "n3"]), &ids(&["h0", "h1", "h2"]), 42)
        .expect("something is live");
    let got_ids: Vec<&str> = got.iter().map(|e| e.id.as_str()).collect();
    assert_eq!(got_ids, vec!["n0", "n1", "n3"]);
    assert_eq!(got[0].bound_text_id.as_deref(), Some("n1"));
    assert_eq!(got[1].container_id.as_deref(), Some("n0"));
    assert_eq!(got[2].start_binding.as_deref(), Some("n0"));
    assert_eq!(got[2].end_binding, None);
    assert_eq!(got[0].group_ids, ids(&["h0"]));
    assert_eq!(got[1].group_ids, ids(&["h0"]));
    assert!(got.iter().all(|e| e.version == 1 && e.updated == 42 && !e.is_deleted));
}

#[test]
fn a_copy_made_inside_a_group_stays_in_it() {
    let source = vec![el("a", DrawElementType::Rectangle, &["inner", "outer"]), el("b", DrawElementType::Rectangle, &["outer"])];
    let got = materialize_within(&source, Some("outer"), &ids(&["n0", "n1"]), &ids(&["h0", "h1", "h2"]), 1)
        .expect("something is live");
    assert_eq!(got[0].group_ids, ids(&["h0", "outer"]));
    assert_eq!(got[1].group_ids, ids(&["outer"]));
}

#[test]
fn nothing_live_makes_no_copy() {
    let mut gone = el("gone", DrawElementType::Ellipse, &[]);
    gone.is_deleted = true;
    assert!(materialize_within(&[gone], None, &ids(&["n0"]), &Vec::new(), 1).is_none());
}
