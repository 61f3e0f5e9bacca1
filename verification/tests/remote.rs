use draw_engine::element::{DrawElement, DrawElementType};
use draw_engine::remote::{accept_copy, merge_remote, remote_order, remote_step_for, touches_panel, RemoteStep};

fn stamped(id: &str, version: u32, nonce: u32) -> DrawElement {
    let mut el = DrawElement::new(id.to_string(), DrawElementType::Rectangle);
    el.version = version;
    el.version_nonce = nonce;
    el
}

fn order(v: &[DrawElement]) -> Vec<String> {
    v.iter().map(|e| e.id.clone()).collect()
}

fn ids(v: &[&str]) -> Vec<String> {
    v.iter().map(|s| s.to_string()).collect()
}

#[test]
fn a_newer_copy_is_accepted_and_an_older_one_ignored() {
    let ours = stamped("a", 2, 5);
    assert_eq!(remote_step_for(&stamped("a", 3, 0), Some(&ours), false, None), RemoteStep::Accept);
    assert_eq!(remote_step_for(&stamped("a", 1, 9), Some(&ours), false, None), RemoteStep::Ignore);
    assert_eq!(remote_step_for(&stamped("a", 1, 0), None, false, None), RemoteStep::Accept);
}

#[test]
fn an_element_changed_here_keeps_the_best_copy_aside() {
    let ours = stamped("a", 2, 5);
    assert_eq!(remote_step_for(&stamped("a", 9, 0), Some(&ours), true, None), RemoteStep::Refuse);
    let kept = stamped("a", 4, 0);
    assert_eq!(remote_step_for(&stamped("a", 3, 0), Some(&ours), true, Some(&kept)), RemoteStep::KeepRefused);
    assert_eq!(remote_step_for(&stamped("a", 5, 0), Some(&ours), true, Some(&kept)), RemoteStep::Refuse);
}

#[test]
fn a_picture_sent_late_is_taken_on_its_own() {
    let mut ours = DrawElement::new("img".to_string(), DrawElementType::Image);
    ours.version = 2;
    let mut incoming = DrawElement::new("img".to_string(), DrawElementType::Image);
    incoming.version = 2;
    incoming.data_url = Some("data:png".into());
    assert_eq!(remote_step_for(&incoming, Some(&ours), true, None), RemoteStep::TakePicture);
}

#[test]
fn an_accepted_image_keeps_the_picture_it_was_sent_without() {
    let mut ours = DrawElement::new("img".to_string(), DrawElementType::Image);
    ours.data_url = Some("data:png".into());
    let mut incoming = DrawElement::new("img".to_string(), DrawElementType::Image);
    incoming.version = 3;
    let copy = accept_copy(incoming, Some(&ours));
    assert_eq!(copy.version, 3);
    assert_eq!(copy.data_url.as_deref(), Some("data:png"));
}

#[test]
fn a_change_to_the_selection_or_its_labels_shows_in_the_panel() {
    let mut label = DrawElement::new("t".to_string(), DrawElementType::Text);
    label.container_id = Some("box".into());
    assert!(touches_panel(&label, &ids(&["box"])));
    assert!(touches_panel(&stamped("box", 1, 0), &ids(&["box"])));
    assert!(!touches_panel(&stamped("x", 1, 0), &ids(&["box"])));
}

#[test]
fn a_peer_order_stacks_what_it_lists_and_leaves_the_rest_on_top() {
    let mut gone = stamped("d", 1, 0);
    gone.is_deleted = true;
    let board = vec![stamped("a", 1, 0), stamped("b", 1, 0), stamped("c", 1, 0), gone, stamped("e", 1, 0)];
    let got = remote_order(&board, &ids(&["c", "a", "d", "zz"]));
    assert_eq!(order(&got), ids(&["c", "a", "b", "e"]));
}

#[test]
fn merging_converges_whatever_order_copies_arrive_in() {
    let older = stamped("a", 2, 1);
    let newer = stamped("a", 3, 0);
    let mut board = stamped("a", 1, 0);
    for incoming in [&older, &newer] {
        if remote_step_for(incoming, Some(&board), false, None) == RemoteStep::Accept {
            board = accept_copy(incoming.clone(), Some(&board));
        }
    }
    let mut other = stamped("a", 1, 0);
    for incoming in [&newer, &older] {
        if remote_step_for(incoming, Some(&other), false, None) == RemoteStep::Accept {
            other = accept_copy(incoming.clone(), Some(&other));
        }
    }
    assert_eq!((board.version, board.version_nonce), (3, 0));
    assert_eq!((other.version, other.version_nonce), (3, 0));
}

#[test]
fn merging_into_a_board_converges_whatever_order_copies_arrive_in() {
    let start = vec![stamped("x", 1, 0), stamped("a", 1, 0)];
    let older = stamped("a", 2, 1);
    let newer = stamped("a", 3, 0);
    let mut one = start.clone();
    let mut aside = Vec::new();
    assert_eq!(merge_remote(&mut one, &mut aside, &Vec::new(), older.clone()), RemoteStep::Accept);
    assert_eq!(merge_remote(&mut one, &mut aside, &Vec::new(), newer.clone()), RemoteStep::Accept);
    let mut two = start.clone();
    assert_eq!(merge_remote(&mut two, &mut aside, &Vec::new(), newer), RemoteStep::Accept);
    assert_eq!(merge_remote(&mut two, &mut aside, &Vec::new(), older), RemoteStep::Ignore);
    assert_eq!(order(&one), ids(&["x", "a"]));
    assert_eq!(order(&two), ids(&["x", "a"]));
    assert_eq!((one[1].version, one[1].version_nonce), (3, 0));
    assert_eq!((two[1].version, two[1].version_nonce), (3, 0));
    assert!(aside.is_empty());
}

#[test]
fn a_new_element_from_a_peer_goes_on_top() {
    let mut board = vec![stamped("x", 1, 0)];
    let mut aside = Vec::new();
    assert_eq!(merge_remote(&mut board, &mut aside, &Vec::new(), stamped("n", 1, 0)), RemoteStep::Accept);
    assert_eq!(order(&board), ids(&["x", "n"]));
}

#[test]
fn an_element_changed_here_is_set_aside_and_the_board_kept() {
    let mut board = vec![stamped("a", 2, 0)];
    let mut aside = Vec::new();
    let pending = ids(&["a"]);
    assert_eq!(merge_remote(&mut board, &mut aside, &pending, stamped("a", 5, 0)), RemoteStep::Refuse);
    assert_eq!(merge_remote(&mut board, &mut aside, &pending, stamped("a", 4, 0)), RemoteStep::KeepRefused);
    assert_eq!(merge_remote(&mut board, &mut aside, &pending, stamped("a", 7, 0)), RemoteStep::Refuse);
    assert_eq!(board[0].version, 2);
    assert_eq!(aside.len(), 1);
    assert_eq!(aside[0].version, 7);
}

#[test]
fn a_late_picture_is_written_onto_the_board_copy() {
    let mut ours = DrawElement::new("img".to_string(), DrawElementType::Image);
    ours.version = 2;
    ours.locked = true;
    let mut incoming = DrawElement::new("img".to_string(), DrawElementType::Image);
    incoming.version = 2;
    incoming.data_url = Some("data:png".into());
    let mut board = vec![ours];
    let mut aside = Vec::new();
    assert_eq!(merge_remote(&mut board, &mut aside, &Vec::new(), incoming), RemoteStep::TakePicture);
    assert_eq!(board[0].data_url.as_deref(), Some("data:png"));
    assert!(board[0].locked);
}

#[test]
fn an_id_listed_twice_in_a_peer_order_keeps_its_first_place() {
    let board = vec![stamped("a", 1, 0), stamped("b", 1, 0), stamped("c", 1, 0)];
    let got = remote_order(&board, &ids(&["b", "a", "b"]));
    assert_eq!(order(&got), ids(&["b", "a", "c"]));
}
