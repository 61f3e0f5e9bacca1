use draw_engine::clipboard::{duplicate_runs, DuplicateRun};
use draw_engine::element::{DrawElement, DrawElementType};

fn el(id: &str, kind: DrawElementType) -> DrawElement {
    DrawElement::new(id.to_string(), kind)
}

fn rect(id: &str) -> DrawElement {
    el(id, DrawElementType::Rectangle)
}

#[test]
fn ungrouped_elements_are_solo_runs() {
    let source = vec![rect("a"), rect("b")];
    let runs = duplicate_runs(&source, None);
    assert_eq!(
        runs,
        vec![
            (DuplicateRun::Solo("a".into()), vec![0]),
            (DuplicateRun::Solo("b".into()), vec![1]),
        ]
    );
}

#[test]
fn a_group_is_one_run_anchored_on_its_top_member() {
    let mut a = rect("a");
    a.group_ids = vec!["g".into()];
    let mut b = rect("b");
    b.group_ids = vec!["g".into()];
    let source = vec![a, rect("x"), b];
    let runs = duplicate_runs(&source, None);
    assert_eq!(
        runs,
        vec![
            (DuplicateRun::Group("g".into()), vec![0, 2]),
            (DuplicateRun::Solo("x".into()), vec![1]),
        ]
    );
}

#[test]
fn a_group_member_frames_child_joins_the_groups_run() {
    let mut frame = el("f", DrawElementType::Frame);
    frame.group_ids = vec!["g".into()];
    let mut sibling = rect("s");
    sibling.group_ids = vec!["g".into()];
    let mut child = rect("c");
    child.frame_id = Some("f".into());
    let source = vec![child, frame, sibling];
    let runs = duplicate_runs(&source, None);
    assert_eq!(
        runs,
        vec![(DuplicateRun::Group("g".into()), vec![0, 1, 2])],
        "child, frame and sibling are one run — the child never gets a run of its own"
    );
}

#[test]
fn a_frame_child_that_is_also_a_group_member_is_counted_once() {
    let mut frame = el("f", DrawElementType::Frame);
    frame.group_ids = vec!["g".into()];
    let mut child = rect("c");
    child.frame_id = Some("f".into());
    child.group_ids = vec!["g".into()];
    let source = vec![child, frame];
    let runs = duplicate_runs(&source, None);
    assert_eq!(runs, vec![(DuplicateRun::Group("g".into()), vec![0, 1])]);
}

#[test]
fn members_of_the_group_being_edited_are_one_run() {
    let mut a = rect("a");
    a.group_ids = vec!["g".into()];
    let mut b = rect("b");
    b.group_ids = vec!["g".into()];
    let source = vec![a, b];
    let runs = duplicate_runs(&source, Some("g"));
    assert_eq!(runs, vec![(DuplicateRun::Group("g".into()), vec![0, 1])]);
}

#[test]
fn a_frame_and_its_duplicated_children_are_one_run() {
    let child = {
        let mut c = rect("c");
        c.frame_id = Some("f".into());
        c
    };
    let frame = el("f", DrawElementType::Frame);
    let source = vec![child, frame];
    let runs = duplicate_runs(&source, None);
    assert_eq!(runs, vec![(DuplicateRun::Frame("f".into()), vec![0, 1])]);
}

#[test]
fn a_lone_frame_child_is_a_solo_run() {
    let mut child = rect("c");
    child.frame_id = Some("f".into());
    let source = vec![child];
    let runs = duplicate_runs(&source, None);
    assert_eq!(runs, vec![(DuplicateRun::Solo("c".into()), vec![0])]);
}

#[test]
fn a_container_and_its_label_are_one_run() {
    let mut container = rect("box");
    container.bound_text_id = Some("lbl".into());
    let mut label = el("lbl", DrawElementType::Text);
    label.container_id = Some("box".into());
    let source = vec![container, label];
    let runs = duplicate_runs(&source, None);
    assert_eq!(
        runs,
        vec![(DuplicateRun::Container("box".into()), vec![0, 1])]
    );
}

#[test]
fn a_run_owns_its_members_and_nothing_else() {
    let mut a = rect("a");
    a.group_ids = vec!["g".into()];
    let b = rect("b");
    assert!(DuplicateRun::Group("g".into()).owns(&a));
    assert!(!DuplicateRun::Group("g".into()).owns(&b));
    let mut child = rect("c");
    child.frame_id = Some("f".into());
    assert!(DuplicateRun::Frame("f".into()).owns(&child));
    assert!(DuplicateRun::Frame("f".into()).owns(&el("f", DrawElementType::Frame)));
    let mut label = el("l", DrawElementType::Text);
    label.container_id = Some("box".into());
    assert!(DuplicateRun::Container("box".into()).owns(&label));
    assert!(DuplicateRun::Solo("b".into()).owns(&b));
    assert!(!DuplicateRun::Solo("b".into()).owns(&a));
}

#[test]
fn a_copy_takes_the_selected_frames_children_and_the_labels() {
    let frame = el("f", DrawElementType::Frame);
    let mut child = rect("c");
    child.frame_id = Some("f".into());
    let mut boxed = rect("box");
    boxed.bound_text_id = Some("lbl".into());
    let mut label = el("lbl", DrawElementType::Text);
    label.container_id = Some("box".into());
    let mut gone = rect("gone");
    gone.is_deleted = true;
    let loose = rect("loose");
    let elements = vec![child, frame, boxed, label, gone, loose];
    let copied = draw_engine::clipboard::expand_for_copy(
        &elements,
        &vec!["f".to_string(), "box".to_string(), "gone".to_string()],
    );
    let ids: Vec<String> = copied.iter().map(|e| e.id.clone()).collect();
    assert_eq!(ids, vec!["c", "f", "box", "lbl"]);
}
