use draw_engine::element::{DrawElement, DrawElementType};
use draw_engine::group::{
    after_delete_within, carried_by, expand_to_groups, expand_within, group_patches,
    is_in_group, is_live_group, is_single_group, keeps_editing, leave_edited_group,
    parent_group, selected_group_for, ungroup_patches, with_labels,
};

fn rect(id: &str, groups: &[&str]) -> DrawElement {
    let mut el = DrawElement::new(id.to_string(), DrawElementType::Rectangle);
    el.group_ids = groups.iter().map(|g| g.to_string()).collect();
    el
}

fn ids(v: &[&str]) -> Vec<String> {
    v.iter().map(|s| s.to_string()).collect()
}

fn sorted(mut v: Vec<String>) -> Vec<String> {
    v.sort();
    v
}

#[test]
fn a_click_selects_the_outermost_group_then_one_level_in() {
    let el = rect("a", &["inner", "outer"]);
    assert_eq!(selected_group_for(&el, None).map(String::as_str), Some("outer"));
    assert_eq!(selected_group_for(&el, Some("outer")).map(String::as_str), Some("inner"));
    assert_eq!(selected_group_for(&el, Some("inner")), None);
    assert_eq!(selected_group_for(&el, Some("elsewhere")), None);
    assert_eq!(selected_group_for(&rect("b", &[]), None), None);
}

#[test]
fn membership_and_parents_read_the_nesting() {
    let el = rect("a", &["inner", "outer"]);
    assert!(is_in_group(&el, "inner"));
    assert!(is_in_group(&el, "outer"));
    assert!(!is_in_group(&el, "other"));
    assert_eq!(parent_group(&el, "inner").map(String::as_str), Some("outer"));
    assert_eq!(parent_group(&el, "outer"), None);
    assert_eq!(parent_group(&el, "other"), None);
}

#[test]
fn a_group_of_one_is_no_group() {
    let mut gone = rect("b", &["g"]);
    gone.is_deleted = true;
    let board = vec![rect("a", &["g"]), gone];
    assert!(!is_live_group(&board, "g"));
    let board = vec![rect("a", &["g"]), rect("b", &["g"])];
    assert!(is_live_group(&board, "g"));
}

#[test]
fn expanding_takes_every_member_of_a_touched_group() {
    let board = vec![
        rect("a", &["inner", "outer"]),
        rect("b", &["outer"]),
        rect("c", &[]),
        rect("d", &["inner", "outer"]),
    ];
    let all = expand_to_groups(&board, ids(&["a"]));
    assert_eq!(sorted(all), ids(&["a", "b", "d"]));
    let inside = expand_within(&board, ids(&["a"]), Some("outer"));
    assert_eq!(sorted(inside), ids(&["a", "d"]));
    let loose = expand_to_groups(&board, ids(&["c"]));
    assert_eq!(loose, ids(&["c"]));
}

#[test]
fn labels_are_read_in_with_their_shapes() {
    let mut shape = rect("s", &[]);
    shape.bound_text_id = Some("t".into());
    let board = vec![shape, rect("x", &[])];
    assert_eq!(sorted(with_labels(&board, &ids(&["s"]))), ids(&["s", "t"]));
    assert_eq!(with_labels(&board, &ids(&["x"])), ids(&["x"]));
}

#[test]
fn the_edited_group_holds_while_its_members_are_held() {
    let board = vec![rect("a", &["g"]), rect("b", &["g"]), rect("c", &[])];
    assert!(keeps_editing(&board, &ids(&["a"]), "g"));
    assert!(!keeps_editing(&board, &ids(&["a", "c"]), "g"));
    assert!(!keeps_editing(&board, &ids(&[]), "g"));
    let alone = vec![rect("a", &["g"]), rect("c", &[])];
    assert!(!keeps_editing(&alone, &ids(&["a"]), "g"));
}

#[test]
fn a_locked_member_moves_with_its_group_but_a_locked_loner_stays() {
    let mut locked = rect("b", &["g"]);
    locked.locked = true;
    let mut lone = rect("c", &[]);
    lone.locked = true;
    let board = vec![rect("a", &["g"]), locked, lone];
    let carried = carried_by(&board, &ids(&["a", "b", "c"]), None);
    assert_eq!(sorted(carried), ids(&["a", "b"]));
}

#[test]
fn the_exact_group_is_a_single_group_and_a_part_is_not() {
    let board = vec![rect("a", &["g"]), rect("b", &["g"]), rect("c", &["g"])];
    assert!(is_single_group(&board, &ids(&["a", "b", "c"]), None));
    assert!(!is_single_group(&board, &ids(&["a", "b"]), None));
    let mixed = vec![rect("a", &["g"]), rect("b", &["g"]), rect("x", &[])];
    assert!(!is_single_group(&mixed, &ids(&["a", "b", "x"]), None));
}

#[test]
fn grouping_wraps_outward_at_the_top_and_nests_inside_an_edited_group() {
    let board = vec![rect("a", &["g"]), rect("b", &["g"]), rect("c", &[])];
    let top = group_patches(&board, &ids(&["a", "c"]), "n", None);
    let got: Vec<(String, Vec<String>)> = top.iter().map(|e| (e.id.clone(), e.group_ids.clone())).collect();
    assert_eq!(got, vec![("a".to_string(), ids(&["g", "n"])), ("c".to_string(), ids(&["n"]))]);
    let nested = group_patches(&board, &ids(&["a"]), "n", Some("g"));
    assert_eq!(nested.len(), 1);
    assert_eq!(nested[0].group_ids, ids(&["n", "g"]));
}

#[test]
fn regrouping_an_exact_group_does_nothing() {
    let board = vec![rect("a", &["g"]), rect("b", &["g"])];
    assert!(group_patches(&board, &ids(&["a", "b"]), "n", None).is_empty());
}

#[test]
fn ungrouping_peels_one_level_at_a_time() {
    let board = vec![rect("a", &["inner", "outer"]), rect("b", &["inner", "outer"]), rect("c", &["outer"])];
    let once = ungroup_patches(&board, &ids(&["a", "b", "c"]), None);
    let got: Vec<(String, Vec<String>)> = once.iter().map(|e| (e.id.clone(), e.group_ids.clone())).collect();
    assert_eq!(
        got,
        vec![
            ("a".to_string(), ids(&["inner"])),
            ("b".to_string(), ids(&["inner"])),
            ("c".to_string(), ids(&[])),
        ]
    );
}

#[test]
fn ungrouping_right_after_grouping_gives_the_groups_back() {
    let board = vec![rect("a", &["g"]), rect("b", &["g"]), rect("c", &[])];
    let grouped = group_patches(&board, &ids(&["a", "c"]), "n", None);
    let mut after = board.clone_board();
    for patch in &grouped {
        let at = after.iter().position(|e| e.id == patch.id).unwrap();
        after[at] = patch.duplicate();
    }
    let undone = ungroup_patches(&after, &ids(&["a", "c"]), None);
    let got: Vec<(String, Vec<String>)> = undone.iter().map(|e| (e.id.clone(), e.group_ids.clone())).collect();
    assert_eq!(got, vec![("a".to_string(), ids(&["g"])), ("c".to_string(), ids(&[]))]);
}

trait CloneBoard {
    fn clone_board(&self) -> Vec<DrawElement>;
}

impl CloneBoard for Vec<DrawElement> {
    fn clone_board(&self) -> Vec<DrawElement> {
        self.iter().map(DrawElement::duplicate).collect()
    }
}

#[test]
fn a_group_of_one_is_not_ungrouped() {
    let board = vec![rect("a", &["g"]), rect("b", &[])];
    assert!(ungroup_patches(&board, &ids(&["a"]), None).is_empty());
}

#[test]
fn deleting_inside_a_group_keeps_it_open_while_two_remain() {
    let mut gone = rect("x", &["g", "outer"]);
    gone.is_deleted = true;
    let board = vec![gone, rect("a", &["g", "outer"]), rect("b", &["g", "outer"]), rect("c", &["outer"])];
    let (level, held) = after_delete_within(&board, "g", &[true, true, true, true]);
    assert_eq!(level.as_deref(), Some("g"));
    assert_eq!(held, ids(&["a"]));
}

#[test]
fn deleting_down_to_one_steps_up_to_the_group_around() {
    let board = vec![rect("a", &["g", "outer"]), rect("c", &["outer"])];
    let (level, held) = after_delete_within(&board, "g", &[true, true]);
    assert_eq!(level.as_deref(), Some("outer"));
    assert_eq!(held, ids(&["a"]));
}

#[test]
fn deleting_down_to_a_loner_leaves_the_group() {
    let board = vec![rect("a", &["g"]), rect("c", &[])];
    let (level, held) = after_delete_within(&board, "g", &[true, true]);
    assert_eq!(level, None);
    assert_eq!(held, ids(&["a"]));
    let (level, held) = after_delete_within(&board, "g", &[false, true]);
    assert_eq!(level, None);
    assert!(held.is_empty());
}

#[test]
fn leaving_the_edited_group_drops_its_level_and_dead_groups() {
    let board = vec![rect("a", &["inner", "g", "outer"]), rect("b", &["g", "outer"]), rect("c", &["outer"])];
    let out = leave_edited_group(&board, &ids(&["a"]), "g");
    let got: Vec<(String, Vec<String>)> = out.iter().map(|e| (e.id.clone(), e.group_ids.clone())).collect();
    assert_eq!(
        got,
        vec![("a".to_string(), ids(&["inner"])), ("b".to_string(), ids(&["outer"]))]
    );
}

#[test]
fn ctrl_g_undoes_itself() {
    let mut shape = rect("s", &["old"]);
    shape.bound_text_id = Some("t".into());
    let mut label = DrawElement::new("t".to_string(), DrawElementType::Text);
    label.container_id = Some("s".into());
    let board = vec![shape, label, rect("x", &[]), rect("y", &["other"]), rect("z", &["old"])];
    let selection = ids(&["s", "x"]);
    assert!(!is_single_group(&board, &selection, None));
    let patches = group_patches(&board, &selection, "n", None);
    let mut after = board.clone();
    for patch in &patches {
        let at = after.iter().position(|e| e.id == patch.id).unwrap();
        after[at] = patch.clone();
    }
    assert!(is_single_group(&after, &selection, None));
    let undone = ungroup_patches(&after, &selection, None);
    let got: Vec<(String, Vec<String>)> = undone.iter().map(|e| (e.id.clone(), e.group_ids.clone())).collect();
    assert_eq!(
        got,
        vec![
            ("s".to_string(), ids(&["old"])),
            ("t".to_string(), ids(&[])),
            ("x".to_string(), ids(&[])),
        ]
    );
}

#[test]
fn leaving_after_a_delete_never_holds_what_cannot_be_touched() {
    let board = vec![rect("a", &["g", "p", "o"]), rect("b", &["o"])];
    let (level, held) = after_delete_within(&board, "g", &[true, false]);
    assert_eq!(level, None);
    assert_eq!(held, ids(&["a"]));
    let (_, both) = after_delete_within(&board, "g", &[true, true]);
    assert_eq!(sorted(both), ids(&["a", "b"]));
}
