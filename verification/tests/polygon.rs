use draw_engine::element::{DrawElement, DrawElementType};
use draw_engine::polygon::{can_toggle_polygon, toggle_polygon};

fn line(id: &str, points: usize) -> DrawElement {
    let mut el = DrawElement::new(id.to_string(), DrawElementType::Line);
    el.point_count = points;
    el
}

#[test]
fn predicate_needs_four_points_on_every_selected_line() {
    let short = line("short", 3);
    let long = line("long", 4);
    assert!(!can_toggle_polygon(&[&short]));
    assert!(can_toggle_polygon(&[&long]));
    assert!(!can_toggle_polygon(&[&long, &short]));
    assert!(!can_toggle_polygon(&[]));
}

#[test]
fn toggling_a_polygon_back_opens_it_and_clears_the_background() {
    let mut closed = line("closed", 4);
    closed.polygon = Some(true);
    closed.background_color = "#ffab00".into();
    let patches = toggle_polygon(&[closed], &[true], &[false]);
    assert_eq!(patches.len(), 1);
    let patch = &patches[0];
    assert!(!patch.is_polygon());
    assert_eq!(patch.background_color, "transparent");
}

#[test]
fn one_open_selected_among_polygons_closes_every_target() {
    let mut closed = line("closed", 4);
    closed.polygon = Some(true);
    let open = line("open", 4);
    let patches = toggle_polygon(&[closed, open], &[true, true], &[false, false]);
    assert!(patches.iter().all(DrawElement::is_polygon));
}

#[test]
fn closing_keeps_the_background_and_flags_the_line() {
    let mut open = line("open", 5);
    open.background_color = "#ffab00".into();
    let patches = toggle_polygon(&[open], &[true], &[false]);
    assert_eq!(patches.len(), 1);
    assert_eq!(patches[0].polygon, Some(true));
    assert_eq!(patches[0].background_color, "#ffab00");
    assert_eq!(patches[0].id, "open");
}

#[test]
fn only_lines_get_a_patch() {
    let rect = DrawElement::new("r".to_string(), DrawElementType::Rectangle);
    let open = line("l", 4);
    let patches = toggle_polygon(&[rect, open], &[false, true], &[false, false]);
    let ids: Vec<&str> = patches.iter().map(|p| p.id.as_str()).collect();
    assert_eq!(ids, vec!["l"]);
}

#[test]
fn the_predicate_refuses_anything_but_lines() {
    let mut arrow = DrawElement::new("a".to_string(), DrawElementType::Arrow);
    arrow.point_count = 6;
    assert!(!can_toggle_polygon(&[&arrow]));
}

#[test]
fn closing_an_open_triangle_appends_the_first_point_and_flags_it() {
    // The points [0,0], [50,0], [25,50], [40,45]: they can close, and the ends are apart.
    let open = line("open", 4);
    let patches = toggle_polygon(&[open], &[true], &[false]);
    assert_eq!(patches.len(), 1);
    assert!(patches[0].is_polygon());
    assert_eq!(patches[0].point_count, 5);
}

#[test]
fn closing_merges_a_near_first_last_point_instead_of_appending() {
    // The points [0,0], [50,0], [25,50], [1,1]: the last sits by the first.
    let almost_closed = line("almost", 4);
    let patches = toggle_polygon(&[almost_closed], &[true], &[true]);
    assert_eq!(patches.len(), 1);
    assert_eq!(patches[0].point_count, 4, "merged onto the existing last point");
}

#[test]
fn a_short_line_gets_a_closing_point_even_when_its_ends_are_near() {
    let short = line("short", 3);
    let patches = toggle_polygon(&[short], &[true], &[true]);
    assert_eq!(patches[0].point_count, 4);
}

#[test]
fn points_that_cannot_close_keep_their_count_and_opening_keeps_it() {
    let stuck = line("stuck", 4);
    assert_eq!(toggle_polygon(&[stuck], &[false], &[false])[0].point_count, 4);
    let mut closed = line("closed", 5);
    closed.polygon = Some(true);
    assert_eq!(toggle_polygon(&[closed], &[true], &[false])[0].point_count, 5);
}
