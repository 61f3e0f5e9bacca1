use draw_engine::align::{units, AlignMode};
use draw_engine::element::{DrawElement, DrawElementType};
use draw_engine::flip::{flip_elements, FlipAxis};

fn rect(id: &str, groups: &[&str]) -> DrawElement {
    let mut el = DrawElement::new(id.to_string(), DrawElementType::Rectangle);
    el.group_ids = groups.iter().map(|g| g.to_string()).collect();
    el
}

fn ids(v: &[&str]) -> Vec<String> {
    v.iter().map(|s| s.to_string()).collect()
}

#[test]
fn align_modes_parse_by_name() {
    assert_eq!(AlignMode::parse("left"), Some(AlignMode::Left));
    assert_eq!(AlignMode::parse("centerX"), Some(AlignMode::CenterX));
    assert_eq!(AlignMode::parse("right"), Some(AlignMode::Right));
    assert_eq!(AlignMode::parse("top"), Some(AlignMode::Top));
    assert_eq!(AlignMode::parse("centerY"), Some(AlignMode::CenterY));
    assert_eq!(AlignMode::parse("bottom"), Some(AlignMode::Bottom));
    assert_eq!(AlignMode::parse("middle"), None);
}

#[test]
fn a_group_moves_as_one_unit_and_a_loner_as_another() {
    let board = vec![rect("a", &["g"]), rect("b", &["g"]), rect("c", &[]), rect("d", &[])];
    assert_eq!(units(&board, &ids(&["a", "b", "c"]), None), vec![vec![0, 1], vec![2]]);
}

#[test]
fn a_single_selected_group_is_cut_one_level_in() {
    let board = vec![rect("a", &["g"]), rect("b", &["g"]), rect("c", &[])];
    assert_eq!(units(&board, &ids(&["a", "b"]), None), vec![vec![0], vec![1]]);
}

#[test]
fn nothing_is_arranged_with_a_frame_selected() {
    let board = vec![rect("a", &[]), DrawElement::new("f".to_string(), DrawElementType::Frame)];
    assert!(units(&board, &ids(&["a", "f"]), None).is_empty());
}

#[test]
fn labels_are_no_units() {
    let mut shape = rect("s", &[]);
    shape.bound_text_id = Some("t".into());
    let mut label = DrawElement::new("t".to_string(), DrawElementType::Text);
    label.container_id = Some("s".into());
    let board = vec![shape, label];
    assert_eq!(units(&board, &ids(&["s", "t"]), None), vec![vec![0]]);
}

#[test]
fn axes_read_back_by_name() {
    assert_eq!(FlipAxis::parse("horizontal"), Some(FlipAxis::Horizontal));
    assert_eq!(FlipAxis::parse("vertical"), Some(FlipAxis::Vertical));
    assert_eq!(FlipAxis::parse("diagonal"), None);
    assert_eq!(FlipAxis::parse(FlipAxis::Vertical.as_str()), Some(FlipAxis::Vertical));
    assert_eq!(FlipAxis::Horizontal.as_str(), "horizontal");
}

#[test]
fn only_bound_arrows_just_turn_round() {
    let mut arrow = DrawElement::new("ar".to_string(), DrawElementType::Arrow);
    arrow.start_binding = Some("s".into());
    let board = vec![rect("s", &[]), arrow];
    let heads = vec![(None, None), (None, Some("arrow".to_string()))];
    let plan = flip_elements(&board, &ids(&["ar"]), &heads);
    assert_eq!(plan.targets, vec![1]);
    assert!(plan.turn_only);
    assert_eq!(plan.patches[0].start_binding.as_deref(), Some("s"));
    assert_eq!(plan.patches[0].start_arrowhead.as_deref(), Some("arrow"));
    assert_eq!(plan.patches[0].end_arrowhead, None);
}

#[test]
fn an_arrow_end_stays_bound_only_to_a_shape_that_flips_too() {
    let mut arrow = DrawElement::new("ar".to_string(), DrawElementType::Arrow);
    arrow.start_binding = Some("s".into());
    arrow.end_binding = Some("t".into());
    arrow.bound_text_id = Some("words".into());
    let mut words = DrawElement::new("words".to_string(), DrawElementType::Text);
    words.container_id = Some("ar".into());
    let board = vec![rect("s", &[]), rect("t", &[]), arrow, words];
    let plan = flip_elements(&board, &ids(&["s", "ar", "words"]), &vec![(None, None); 4]);
    assert_eq!(plan.targets, vec![0, 2]);
    assert!(!plan.turn_only);
    assert_eq!(plan.keep_start, vec![false, true]);
    assert_eq!(plan.keep_end, vec![false, false]);
    assert_eq!(plan.words, ids(&["words"]));
    assert_eq!(plan.patches.len(), 2);
    assert_eq!(plan.patches[1].start_binding.as_deref(), Some("s"));
    assert_eq!(plan.patches[1].end_binding, None);
    assert_eq!(plan.patches[0].id, "s");
    assert_eq!(plan.patches[1].end_arrowhead, None, "heads stay where the arrow moves");
}

#[test]
fn nothing_selected_flips_nothing() {
    let mut gone = rect("g", &[]);
    gone.is_deleted = true;
    let board = vec![gone];
    let plan = flip_elements(&board, &ids(&["g"]), &[(None, None)]);
    assert!(plan.targets.is_empty());
    assert!(!plan.turn_only);
}
