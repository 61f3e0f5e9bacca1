//! What a press on an element does to the selection, once the element under the pointer
//! is known: whether it steps out of the group being edited, what it selects at once, and
//! what it narrows the selection to if it is let go without a drag.

use vstd::prelude::*;
use crate::element::{add_id, contains_id, distinct, idset, scene, strv, sv, DrawElement, ElementView};
use crate::eraser::{lemma_idset_push, without_ids};
use crate::group::{expand_within, expanded, in_group, is_in_group};

verus! {

/// What a press on an element decides.
pub struct ClickOutcome {
    /// The selection is let go first: the press landed outside the group being edited.
    pub cleared: bool,
    /// The selection taken at once, where it changes on the press.
    pub selection: Option<Vec<String>>,
    /// The selection taken on a release without a drag.
    pub narrow: Option<Vec<String>>,
}

/// A press's decision as sets of ids.
pub struct ClickView {
    pub cleared: bool,
    pub selection: Option<Set<Seq<char>>>,
    pub narrow: Option<Set<Seq<char>>>,
}

/// The set an optional list of ids stands for.
pub open spec fn opt_idset(o: Option<Vec<String>>) -> Option<Set<Seq<char>>> {
    match o {
        Some(v) => Some(idset(v@)),
        None => None,
    }
}

impl View for ClickOutcome {
    type V = ClickView;

    open spec fn view(&self) -> ClickView {
        ClickView {
            cleared: self.cleared,
            selection: opt_idset(self.selection),
            narrow: opt_idset(self.narrow),
        }
    }
}

/// What a press on `hit` decides, given the board `s`, the selection `sel` and the group
/// being edited. A press outside that group lets go of the selection first. With shift
/// (`additive`), the press adds the hit's group, or takes it out, the taking out waiting
/// for the release unless the press duplicates. Without shift, a press on something not
/// held selects its group; on something held, it keeps the selection for a drag and
/// narrows it to the group on a release, unless that is what is held already or the press
/// duplicates.
pub open spec fn clicked(
    s: Seq<ElementView>,
    sel: Set<Seq<char>>,
    editing: Option<Seq<char>>,
    hit: ElementView,
    additive: bool,
    duplicate: bool,
) -> ClickView {
    let cleared = editing is Some && !in_group(hit, editing.unwrap());
    let current = if cleared {
        Set::empty()
    } else {
        sel
    };
    let hit_ids = expanded(s, set![hit.id], editing);
    if additive {
        let held = current.contains(hit.id);
        let next = if held {
            current.difference(hit_ids)
        } else {
            current.union(hit_ids)
        };
        if held && !duplicate {
            ClickView { cleared, selection: None, narrow: Some(next) }
        } else {
            ClickView { cleared, selection: Some(next), narrow: None }
        }
    } else if !current.contains(hit.id) {
        ClickView { cleared, selection: Some(hit_ids), narrow: None }
    } else if !duplicate && hit_ids != current {
        ClickView { cleared, selection: None, narrow: Some(hit_ids) }
    } else {
        ClickView { cleared, selection: None, narrow: None }
    }
}

/// Whether two sets of ids, each held once, are the same set.
fn same_ids(a: &Vec<String>, b: &Vec<String>) -> (r: bool)
    ensures
        r == (idset(a@) == idset(b@)),
{
    let mut i: usize = 0;
    while i < a.len()
        invariant
            i <= a.len(),
            forall|k: int| 0 <= k < i ==> idset(b@).contains(#[trigger] sv(a@)[k]),
        decreases a.len() - i,
    {
        if !contains_id(b, &a[i]) {
            assert(idset(a@).contains(sv(a@)[i as int]));
            return false;
        }
        i = i + 1;
    }
    let mut j: usize = 0;
    while j < b.len()
        invariant
            j <= b.len(),
            forall|k: int| 0 <= k < a.len() ==> idset(b@).contains(#[trigger] sv(a@)[k]),
            forall|k: int| 0 <= k < j ==> idset(a@).contains(#[trigger] sv(b@)[k]),
        decreases b.len() - j,
    {
        if !contains_id(a, &b[j]) {
            assert(idset(b@).contains(sv(b@)[j as int]));
            return false;
        }
        j = j + 1;
    }
    assert forall|x: Seq<char>| idset(a@).contains(x) == idset(b@).contains(x) by {
        if idset(a@).contains(x) {
            let k = choose|k: int| 0 <= k < sv(a@).len() && sv(a@)[k] == x;
            assert(idset(b@).contains(sv(a@)[k]));
        }
        if idset(b@).contains(x) {
            let k = choose|k: int| 0 <= k < sv(b@).len() && sv(b@)[k] == x;
            assert(idset(a@).contains(sv(b@)[k]));
        }
    }
    assert(idset(a@) =~= idset(b@));
    true
}

/// `a` with every id of `b` added.
fn with_ids(a: Vec<String>, b: &Vec<String>) -> (r: Vec<String>)
    requires
        distinct(a@),
    ensures
        distinct(r@),
        idset(r@) == idset(a@).union(idset(b@)),
{
    let mut out = a;
    let mut i: usize = 0;
    while i < b.len()
        invariant
            i <= b.len(),
            distinct(out@),
            idset(out@) == idset(a@).union(idset(b@.take(i as int))),
        decreases b.len() - i,
    {
        add_id(&mut out, b[i].clone());
        proof {
            assert(b@.take(i + 1) =~= b@.take(i as int).push(b@[i as int]));
            lemma_idset_push(b@.take(i as int), b@[i as int]);
        }
        i = i + 1;
    }
    assert(b@.take(b.len() as int) =~= b@);
    out
}

/// What a press on `hit` does to the selection `selected`, the group `editing` being edited;
/// `additive` is shift, `duplicate` a press that duplicates what it picks up.
pub fn click_selection(
    elements: &[DrawElement],
    selected: &Vec<String>,
    editing: Option<&str>,
    hit: &DrawElement,
    additive: bool,
    duplicate: bool,
) -> (r: ClickOutcome)
    requires
        distinct(selected@),
    ensures
        r@ == clicked(scene(elements@), idset(selected@), strv(editing), hit@, additive, duplicate),
        match r.selection {
            Some(v) => distinct(v@),
            None => true,
        },
        match r.narrow {
            Some(v) => distinct(v@),
            None => true,
        },
{
    let cleared = match editing {
        Some(g) => !is_in_group(hit, g),
        None => false,
    };
    let current: Vec<String> = if cleared {
        Vec::new()
    } else {
        selected.clone()
    };
    proof {
        if cleared {
            assert(idset(current@) =~= Set::<Seq<char>>::empty());
        }
    }
    let mut seed: Vec<String> = Vec::new();
    seed.push(hit.id.clone());
    proof {
        assert(sv(seed@) =~= seq![hit@.id]);
        assert forall|x: Seq<char>| idset(seed@).contains(x) == set![hit@.id].contains(x) by {
            if x == hit@.id {
                assert(sv(seed@)[0] == x);
            }
        }
        assert(idset(seed@) =~= set![hit@.id]);
    }
    let hit_ids = expand_within(elements, seed, editing);
    let held = contains_id(&current, &hit.id);
    if additive {
        let next = if held {
            without_ids(&current, &hit_ids)
        } else {
            with_ids(current, &hit_ids)
        };
        if held && !duplicate {
            ClickOutcome { cleared, selection: None, narrow: Some(next) }
        } else {
            ClickOutcome { cleared, selection: Some(next), narrow: None }
        }
    } else if !held {
        ClickOutcome { cleared, selection: Some(hit_ids), narrow: None }
    } else if !duplicate && !same_ids(&hit_ids, &current) {
        ClickOutcome { cleared, selection: None, narrow: Some(hit_ids) }
    } else {
        ClickOutcome { cleared, selection: None, narrow: None }
    }
}

} // verus!
