use draw_engine::click::click_selection;
use draw_engine::element::{DrawElement, DrawElementType};

fn shape(id: &str, groups: &[&str]) -> DrawElement {
    let mut el = DrawElement::new(id.to_string(), DrawElementType::Rectangle);
    el.group_ids = groups.iter().map(|g| g.to_string()).collect();
    el
}

fn ids(v: &[&str]) -> Vec<String> {
    v.iter().map(|s| s.to_string()).collect()
}

fn sorted(v: Option<Vec<String>>) -> Option<Vec<String>> {
    v.map(|mut v| {
        v.sort();
        v
    })
}

fn board() -> Vec<DrawElement> {
    vec![shape("a", &["g"]), shape("b", &["g"]), shape("c", &[])]
}

#[test]
fn a_press_on_something_not_held_selects_its_group() {
    let b = board();
    let r = click_selection(&b, &ids(&["c"]), None, &b[0], false, false);
    assert!(!r.cleared);
    assert_eq!(sorted(r.selection), Some(ids(&["a", "b"])));
    assert!(r.narrow.is_none());
}

#[test]
fn a_press_on_something_held_narrows_only_on_release() {
    let b = board();
    let r = click_selection(&b, &ids(&["a", "b", "c"]), None, &b[2], false, false);
    assert!(r.selection.is_none());
    assert_eq!(sorted(r.narrow), Some(ids(&["c"])));
    let same = click_selection(&b, &ids(&["a", "b"]), None, &b[0], false, false);
    assert!(same.selection.is_none() && same.narrow.is_none());
    let dup = click_selection(&b, &ids(&["a", "b", "c"]), None, &b[2], false, true);
    assert!(dup.selection.is_none() && dup.narrow.is_none());
}

#[test]
fn shift_adds_a_group_or_takes_it_out_on_release() {
    let b = board();
    let add = click_selection(&b, &ids(&["c"]), None, &b[1], true, false);
    assert_eq!(sorted(add.selection), Some(ids(&["a", "b", "c"])));
    let out = click_selection(&b, &ids(&["a", "b", "c"]), None, &b[1], true, false);
    assert!(out.selection.is_none());
    assert_eq!(sorted(out.narrow), Some(ids(&["c"])));
    let out_now = click_selection(&b, &ids(&["a", "b", "c"]), None, &b[1], true, true);
    assert_eq!(sorted(out_now.selection), Some(ids(&["c"])));
}

#[test]
fn a_press_outside_the_edited_group_lets_go_first() {
    let b = board();
    let r = click_selection(&b, &ids(&["a"]), Some("g"), &b[2], true, false);
    assert!(r.cleared);
    assert_eq!(sorted(r.selection), Some(ids(&["c"])));
    let inside = click_selection(&b, &ids(&["b"]), Some("g"), &b[0], false, false);
    assert!(!inside.cleared);
    assert_eq!(sorted(inside.selection), Some(ids(&["a"])));
}
