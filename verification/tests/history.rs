use draw_engine::element::{DrawElement, DrawElementType};
use draw_engine::history::{commit_action_for, replay_action_for, same_content_of, CommitAction, ReplayAction};

fn stamped(id: &str, version: u32, nonce: u32) -> DrawElement {
    let mut el = DrawElement::new(id.to_string(), DrawElementType::Rectangle);
    el.version = version;
    el.version_nonce = nonce;
    el
}

#[test]
fn content_is_compared_without_the_stamp() {
    let a = stamped("a", 1, 1);
    let mut b = stamped("a", 9, 4);
    assert!(same_content_of(&a, &b));
    b.locked = true;
    assert!(!same_content_of(&a, &b));
}

#[test]
fn a_gesture_that_came_to_nothing_takes_a_winning_refused_copy() {
    let before = stamped("a", 2, 1);
    let now = stamped("a", 2, 1);
    let peer = stamped("a", 3, 0);
    assert_eq!(commit_action_for(Some(&before), Some(&now), Some(&peer), true), CommitAction::Adopt);
    let older = stamped("a", 1, 0);
    assert_eq!(commit_action_for(Some(&before), Some(&now), Some(&older), true), CommitAction::Unchanged);
    assert_eq!(commit_action_for(Some(&before), Some(&now), None, true), CommitAction::Unchanged);
}

#[test]
fn a_change_is_stamped_above_the_refused_copy() {
    let before = stamped("a", 2, 1);
    let now = stamped("a", 2, 1);
    let peer = stamped("a", 5, 0);
    assert_eq!(commit_action_for(Some(&before), Some(&now), Some(&peer), false), CommitAction::Stamp(6));
    assert_eq!(commit_action_for(Some(&before), Some(&now), None, false), CommitAction::Stamp(3));
    let restamped = stamped("a", 3, 7);
    assert_eq!(commit_action_for(Some(&before), Some(&restamped), None, false), CommitAction::Record);
    assert_eq!(commit_action_for(None, Some(&stamped("n", 1, 0)), None, true), CommitAction::Record);
    assert_eq!(commit_action_for(Some(&before), None, None, true), CommitAction::Record);
}

#[test]
fn undo_restores_above_both_stamps_and_tombstones_what_the_step_made() {
    let mut want = stamped("a", 2, 0);
    want.locked = true;
    let now = stamped("a", 7, 0);
    assert_eq!(replay_action_for(Some(&want), Some(&now), false, true), ReplayAction::Restore(8));
    assert_eq!(replay_action_for(Some(&want), None, false, true), ReplayAction::Restore(3));
    assert_eq!(replay_action_for(None, Some(&now), false, true), ReplayAction::Tombstone(8));
    let mut gone = stamped("a", 4, 0);
    gone.is_deleted = true;
    assert_eq!(replay_action_for(None, Some(&gone), false, true), ReplayAction::Keep);
    assert_eq!(replay_action_for(Some(&now), Some(&now), false, true), ReplayAction::Keep);
}

#[test]
fn undo_leaves_what_a_peer_holds() {
    let want = stamped("a", 2, 0);
    let now = stamped("a", 7, 0);
    assert_eq!(replay_action_for(Some(&want), Some(&now), true, false), ReplayAction::Keep);
}
