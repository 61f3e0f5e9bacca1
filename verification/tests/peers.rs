use draw_engine::element::{DrawElement, DrawElementType};
use draw_engine::lock::{selection_locked, toggle_lock};
use draw_engine::peers::{holder_of, peer_marks, unheld, untouchable, Peer};

fn rect(id: &str) -> DrawElement {
    DrawElement::new(id.to_string(), DrawElementType::Rectangle)
}

fn peer(id: &str, holds: &[&str], preview: &[&str]) -> Peer {
    Peer {
        id: id.to_string(),
        name: id.to_uppercase(),
        color: "#123456".to_string(),
        holds: holds.iter().map(|s| s.to_string()).collect(),
        preview: preview.iter().map(|s| rect(s)).collect(),
    }
}

fn ids(v: &[&str]) -> Vec<String> {
    v.iter().map(|s| s.to_string()).collect()
}

#[test]
fn the_first_peer_holding_an_element_holds_it() {
    let peers = vec![peer("p", &["a"], &[]), peer("q", &["a", "b"], &["c"])];
    assert_eq!(holder_of(&peers, &"a".to_string()), Some(0));
    assert_eq!(holder_of(&peers, &"b".to_string()), Some(1));
    assert_eq!(holder_of(&peers, &"c".to_string()), Some(1));
    assert_eq!(holder_of(&peers, &"z".to_string()), None);
}

#[test]
fn what_is_locked_or_held_cannot_be_touched() {
    let peers = vec![peer("p", &["a"], &[])];
    assert!(untouchable(&rect("a"), &peers));
    let mut locked = rect("b");
    locked.locked = true;
    assert!(untouchable(&locked, &peers));
    assert!(!untouchable(&rect("c"), &peers));
}

#[test]
fn what_a_peer_takes_leaves_the_selection() {
    let peers = vec![peer("p", &["b"], &["d"])];
    assert_eq!(unheld(&ids(&["a", "b", "c", "d"]), &peers), ids(&["a", "c"]));
}

#[test]
fn the_lock_toggle_locks_all_unless_all_are_locked() {
    let mut locked = rect("a");
    locked.locked = true;
    let mixed = vec![locked.clone(), rect("b")];
    assert!(!selection_locked(&mixed));
    let once = toggle_lock(&mixed);
    assert!(once.iter().all(|e| e.locked));
    assert!(selection_locked(&once));
    let twice = toggle_lock(&once);
    assert!(twice.iter().all(|e| !e.locked));
    assert!(!selection_locked(&[]));
}

fn versioned(id: &str, version: u32) -> DrawElement {
    let mut el = rect(id);
    el.version = version;
    el
}

#[test]
fn a_peer_is_marked_on_what_it_holds_as_it_is_shown() {
    let mut gone = versioned("b", 1);
    gone.is_deleted = true;
    let board = vec![versioned("a", 1), gone, versioned("c", 3)];
    let mut moving = peer("p", &["a", "b"], &[]);
    moving.preview = vec![versioned("c", 2), versioned("a", 5)];
    let idle = peer("q", &[], &[]);
    let peers = vec![moving, idle];
    let marks = peer_marks(&board, &peers);
    assert_eq!(marks.len(), 1);
    assert_eq!(marks[0].name, "P");
    let shown: Vec<(&str, u32)> = marks[0].elements.iter().map(|e| (e.id.as_str(), e.version)).collect();
    assert_eq!(shown, vec![("a", 5), ("c", 3), ("a", 5)]);
}
