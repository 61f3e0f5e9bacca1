use draw_engine::element::{DrawElement, DrawElementType};
use draw_engine::flowchart::{
    is_flowchart_link, is_flowchart_node, linked_nodes, node_relatives, FlowchartNavigator,
    LinkDirection,
};

fn node(id: &str) -> DrawElement {
    DrawElement::new(id.to_string(), DrawElementType::Rectangle)
}

fn link(id: &str, from: &str, to: &str) -> DrawElement {
    let mut a = DrawElement::new(id.to_string(), DrawElementType::Arrow);
    a.elbowed = true;
    a.start_binding = Some(from.to_string());
    a.end_binding = Some(to.to_string());
    a
}

fn ids(v: &[&str]) -> Vec<String> {
    v.iter().map(|s| s.to_string()).collect()
}

#[test]
fn directions_parse_by_name() {
    assert_eq!(LinkDirection::parse("up"), Some(LinkDirection::Up));
    assert_eq!(LinkDirection::parse("down"), Some(LinkDirection::Down));
    assert_eq!(LinkDirection::parse("left"), Some(LinkDirection::Left));
    assert_eq!(LinkDirection::parse("right"), Some(LinkDirection::Right));
    assert_eq!(LinkDirection::parse("Up"), None);
}

#[test]
fn nodes_are_the_closed_shapes_and_links_the_elbow_arrows() {
    assert!(is_flowchart_node(&node("r")));
    assert!(is_flowchart_node(&DrawElement::new("d".into(), DrawElementType::Diamond)));
    assert!(!is_flowchart_node(&DrawElement::new("t".into(), DrawElementType::Text)));
    assert!(is_flowchart_link(&link("l", "a", "b")));
    let mut straight = link("s", "a", "b");
    straight.elbowed = false;
    assert!(!is_flowchart_link(&straight));
}

#[test]
fn relatives_follow_the_links_on_one_side() {
    let a = node("a");
    let mut gone = node("gone");
    gone.is_deleted = true;
    let board = vec![
        a.clone(),
        node("b"),
        node("c"),
        gone,
        link("ab", "a", "b"),
        link("ca", "c", "a"),
        link("ag", "a", "gone"),
        link("ac", "a", "c"),
    ];
    let right = Some(LinkDirection::Right);
    let down = Some(LinkDirection::Down);
    let leaving = vec![None, None, None, None, right, None, right, down];
    let arriving = vec![None, None, None, None, None, right, None, None];
    assert_eq!(node_relatives(true, &a, &board, &leaving, LinkDirection::Right), ids(&["b"]));
    assert_eq!(node_relatives(true, &a, &board, &leaving, LinkDirection::Down), ids(&["c"]));
    assert_eq!(node_relatives(false, &a, &board, &arriving, LinkDirection::Right), ids(&["c"]));
    assert_eq!(
        linked_nodes(&a, &board, &leaving, &arriving, LinkDirection::Right),
        ids(&["b", "c"])
    );
}

#[test]
fn a_first_press_takes_the_first_node_and_a_repeat_cycles_the_level() {
    let mut nav = FlowchartNavigator::new();
    let linked = [Vec::new(), ids(&["b", "c"]), Vec::new(), Vec::new()];
    let a = "a".to_string();
    assert_eq!(nav.explore(&a, true, &linked, LinkDirection::Right), Some("b".to_string()));
    assert!(nav.exploring());
    assert_eq!(nav.explore(&a, true, &linked, LinkDirection::Right), Some("c".to_string()));
    assert_eq!(nav.explore(&a, true, &linked, LinkDirection::Right), Some("b".to_string()));
}

#[test]
fn with_nothing_that_way_a_press_hops_to_an_unvisited_node() {
    let mut nav = FlowchartNavigator::new();
    let linked = [ids(&["u"]), Vec::new(), ids(&["d1", "d2"]), Vec::new()];
    let a = "a".to_string();
    assert_eq!(nav.explore(&a, true, &linked, LinkDirection::Right), Some("u".to_string()));
    assert_eq!(nav.explore(&a, true, &linked, LinkDirection::Right), Some("d1".to_string()));
    assert_eq!(nav.explore(&a, true, &linked, LinkDirection::Right), Some("d2".to_string()));
    assert_eq!(nav.explore(&a, true, &linked, LinkDirection::Right), None);
}

#[test]
fn a_press_on_something_arrows_cannot_bind_goes_nowhere() {
    let mut nav = FlowchartNavigator::new();
    let linked = [Vec::new(), ids(&["b"]), Vec::new(), Vec::new()];
    assert_eq!(nav.explore(&"a".to_string(), false, &linked, LinkDirection::Right), None);
    assert!(!nav.exploring());
}

#[test]
fn clearing_forgets_the_run() {
    let mut nav = FlowchartNavigator::new();
    let linked = [Vec::new(), ids(&["b"]), Vec::new(), Vec::new()];
    let a = "a".to_string();
    assert_eq!(nav.explore(&a, true, &linked, LinkDirection::Right), Some("b".to_string()));
    nav.clear();
    assert!(!nav.exploring());
    assert_eq!(nav.explore(&a, true, &linked, LinkDirection::Right), Some("b".to_string()));
}
