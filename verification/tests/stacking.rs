use draw_engine::element::{DrawElement, DrawElementType};
use draw_engine::zorder::{gather, reorder_elements, reorder_within, ZOrderMode};

fn rect(id: &str, groups: &[&str]) -> DrawElement {
    let mut el = DrawElement::new(id.to_string(), DrawElementType::Rectangle);
    el.group_ids = groups.iter().map(|g| g.to_string()).collect();
    el
}

fn ids(v: &[&str]) -> Vec<String> {
    v.iter().map(|s| s.to_string()).collect()
}

fn order(v: &[DrawElement]) -> Vec<String> {
    v.iter().map(|e| e.id.clone()).collect()
}

#[test]
fn modes_read_back_by_name() {
    for mode in [ZOrderMode::Front, ZOrderMode::Back, ZOrderMode::Forward, ZOrderMode::Backward] {
        assert_eq!(ZOrderMode::parse(mode.as_str()), Some(mode));
    }
    assert_eq!(ZOrderMode::parse("front"), Some(ZOrderMode::Front));
    assert_eq!(ZOrderMode::parse("sideways"), None);
}

#[test]
fn front_and_back_go_to_the_ends() {
    let board = vec![rect("a", &[]), rect("b", &[]), rect("c", &[])];
    assert_eq!(order(&reorder_elements(&board, &ids(&["a"]), ZOrderMode::Front)), ids(&["b", "c", "a"]));
    assert_eq!(order(&reorder_elements(&board, &ids(&["c"]), ZOrderMode::Back)), ids(&["c", "a", "b"]));
}

#[test]
fn forward_steps_over_one_neighbour() {
    let board = vec![rect("a", &[]), rect("b", &[]), rect("c", &[])];
    assert_eq!(order(&reorder_elements(&board, &ids(&["a"]), ZOrderMode::Forward)), ids(&["b", "a", "c"]));
    assert_eq!(order(&reorder_elements(&board, &ids(&["c"]), ZOrderMode::Backward)), ids(&["a", "c", "b"]));
    assert_eq!(order(&reorder_elements(&board, &ids(&["c"]), ZOrderMode::Forward)), ids(&["a", "b", "c"]));
}

#[test]
fn a_step_passes_a_whole_group() {
    let board = vec![rect("a", &[]), rect("g1", &["g"]), rect("g2", &["g"]), rect("c", &[])];
    assert_eq!(
        order(&reorder_elements(&board, &ids(&["a"]), ZOrderMode::Forward)),
        ids(&["g1", "g2", "a", "c"])
    );
}

#[test]
fn inside_an_entered_group_nothing_leaves_it() {
    let board = vec![rect("x", &[]), rect("m1", &["g"]), rect("m2", &["g"]), rect("y", &[])];
    assert_eq!(
        order(&reorder_within(&board, &ids(&["m1"]), ZOrderMode::Front, Some("g"))),
        ids(&["x", "m2", "m1", "y"])
    );
    assert_eq!(
        order(&reorder_within(&board, &ids(&["m2"]), ZOrderMode::Forward, Some("g"))),
        ids(&["x", "m1", "m2", "y"])
    );
}

#[test]
fn a_label_moves_with_its_shape() {
    let mut shape = rect("s", &[]);
    shape.bound_text_id = Some("t".into());
    let mut label = DrawElement::new("t".to_string(), DrawElementType::Text);
    label.container_id = Some("s".into());
    let board = vec![shape, label, rect("x", &[])];
    assert_eq!(order(&reorder_elements(&board, &ids(&["s"]), ZOrderMode::Front)), ids(&["x", "s", "t"]));
}

#[test]
fn nothing_selected_leaves_the_stack_alone() {
    let board = vec![rect("a", &[]), rect("b", &[])];
    assert_eq!(order(&reorder_elements(&board, &ids(&["z"]), ZOrderMode::Front)), ids(&["a", "b"]));
}

#[test]
fn gathering_makes_a_group_one_run_under_its_topmost_member() {
    let board = vec![rect("a", &[]), rect("x", &[]), rect("b", &[]), rect("y", &[])];
    assert_eq!(order(&gather(&board, &ids(&["a", "b"]))), ids(&["x", "a", "b", "y"]));
    assert_eq!(order(&gather(&board, &ids(&["q"]))), ids(&["a", "x", "b", "y"]));
}
