use draw_engine::element::{DrawElement, DrawElementType, TextAlign, VerticalAlign};
use draw_engine::label::{as_label, bind_label, bind_pair, holds_text, is_free_text, unbind_label};
use draw_engine::sync::{brings_picture, inherit_picture, lacks_picture, remote_wins, same_stamp, stamp_version};

fn stamped(version: u32, nonce: u32, updated: u64) -> DrawElement {
    let mut el = DrawElement::new("x".to_string(), DrawElementType::Rectangle);
    el.version = version;
    el.version_nonce = nonce;
    el.updated = updated;
    el
}

#[test]
fn the_higher_version_wins_then_the_nonce_then_the_time() {
    assert!(remote_wins(&stamped(3, 0, 0), &stamped(2, 9, 9)));
    assert!(!remote_wins(&stamped(2, 9, 9), &stamped(3, 0, 0)));
    assert!(remote_wins(&stamped(2, 5, 0), &stamped(2, 4, 9)));
    assert!(remote_wins(&stamped(2, 5, 7), &stamped(2, 5, 6)));
    assert!(!remote_wins(&stamped(2, 5, 6), &stamped(2, 5, 6)));
}

#[test]
fn of_two_different_stamps_exactly_one_wins() {
    let stamps = [stamped(1, 1, 1), stamped(1, 1, 2), stamped(1, 2, 0), stamped(2, 0, 0)];
    for a in &stamps {
        for b in &stamps {
            let same = a.version == b.version && a.version_nonce == b.version_nonce && a.updated == b.updated;
            assert_eq!(remote_wins(a, b) || remote_wins(b, a), !same);
            assert!(!(remote_wins(a, b) && remote_wins(b, a)));
        }
    }
}

#[test]
fn stamps_compare_by_version_and_nonce() {
    assert!(same_stamp(&stamped(2, 5, 1), &stamped(2, 5, 9)));
    assert!(!same_stamp(&stamped(2, 5, 1), &stamped(2, 6, 1)));
}

fn image(url: Option<&str>) -> DrawElement {
    let mut el = DrawElement::new("img".to_string(), DrawElementType::Image);
    el.data_url = url.map(str::to_string);
    el
}

#[test]
fn an_image_copy_inherits_the_picture_it_was_sent_without() {
    let existing = image(Some("data:png"));
    let mut copy = image(None);
    assert!(lacks_picture(&copy, &existing));
    inherit_picture(&mut copy, &existing);
    assert_eq!(copy.data_url.as_deref(), Some("data:png"));
    assert!(!lacks_picture(&copy, &existing));
}

#[test]
fn only_a_live_image_lacks_a_picture() {
    let existing = image(Some("data:png"));
    let mut gone = image(None);
    gone.is_deleted = true;
    assert!(!lacks_picture(&gone, &existing));
    let mut rect = DrawElement::new("img".to_string(), DrawElementType::Rectangle);
    assert!(!lacks_picture(&rect, &existing));
    inherit_picture(&mut rect, &existing);
    assert_eq!(rect.data_url, None);
}

#[test]
fn a_picture_alone_is_taken_from_the_same_edit() {
    let incoming = image(Some("data:png"));
    let existing = image(None);
    assert!(brings_picture(&incoming, &existing));
    let mut later = image(Some("data:png"));
    later.version = 2;
    assert!(!brings_picture(&later, &existing));
}

#[test]
fn labels_go_in_shapes_and_arrows_but_not_lines() {
    assert!(holds_text(&DrawElement::new("r".into(), DrawElementType::Rectangle)));
    assert!(holds_text(&DrawElement::new("a".into(), DrawElementType::Arrow)));
    assert!(!holds_text(&DrawElement::new("l".into(), DrawElementType::Line)));
    let text = DrawElement::new("t".into(), DrawElementType::Text);
    assert!(is_free_text(&text));
    let label = as_label(text, "box");
    assert!(!is_free_text(&label));
    assert_eq!(label.container_id.as_deref(), Some("box"));
    assert_eq!(label.text_align, Some(TextAlign::Center));
    assert_eq!(label.vertical_align, Some(VerticalAlign::Middle));
    assert_eq!(label.auto_resize, None);
}

#[test]
fn a_free_text_and_an_empty_shape_make_a_bind_pair() {
    let text = DrawElement::new("t".into(), DrawElementType::Text);
    let shape = DrawElement::new("s".into(), DrawElementType::Rectangle);
    let line = DrawElement::new("l".into(), DrawElementType::Line);
    assert_eq!(bind_pair(&[&shape, &text], &[false, false], &[true, true]), Some((1, 0)));
    assert_eq!(bind_pair(&[&text, &shape], &[false, false], &[true, true]), Some((0, 1)));
    assert_eq!(bind_pair(&[&text, &shape], &[false, true], &[true, true]), None);
    assert_eq!(bind_pair(&[&text, &shape], &[false, false], &[true, false]), None);
    assert_eq!(bind_pair(&[&text, &line], &[false, false], &[true, true]), None);
    assert_eq!(bind_pair(&[&text], &[false], &[true]), None);
}

#[test]
fn binding_ties_both_ways_and_unbinding_unties_them() {
    let text = DrawElement::new("t".into(), DrawElementType::Text);
    let shape = DrawElement::new("s".into(), DrawElementType::Rectangle);
    let (label, shape) = bind_label(text, shape);
    assert_eq!(label.container_id.as_deref(), Some("s"));
    assert_eq!(shape.bound_text_id.as_deref(), Some("t"));
    let (shape, text) = unbind_label(shape, label);
    assert_eq!(shape.bound_text_id, None);
    assert!(is_free_text(&text));
}

#[test]
fn a_commit_stamps_above_a_refused_peer_copy() {
    let before = stamped(4, 7, 0);
    let unchanged_stamp = stamped(4, 7, 0);
    assert_eq!(stamp_version(Some(&before), &unchanged_stamp, None), Some(5));
    let peer = stamped(9, 1, 0);
    assert_eq!(stamp_version(Some(&before), &unchanged_stamp, Some(&peer)), Some(10));
    let already = stamped(5, 3, 0);
    assert_eq!(stamp_version(Some(&before), &already, None), None);
    assert_eq!(stamp_version(Some(&before), &already, Some(&peer)), Some(10));
    assert_eq!(stamp_version(None, &already, None), None);
    assert!(remote_wins(&stamped(10, 0, 0), &peer));
}
