//! What deleting the selection takes, and what it leaves.
//!
//! Deleting a frame deletes the frame, not the work in it: its children stay, leave the
//! frame, and become the selection, even one selected along with it, and a kept child's
//! label stays with it. Whatever else is selected goes, with its label; a container whose
//! label goes without it loses the label.

use vstd::prelude::*;
use crate::clipboard::{children_of, frames_of};
use crate::element::{add_id, contains_id, distinct, idset, is_frame, same_text, scene, sv, DrawElement,
    ElementView};
use crate::group::{collected, first_such, lemma_collected_step, lemma_first_found, lemma_first_such};

verus! {

/// What deleting the selection does.
pub struct DeletePlan {
    /// The ids to delete.
    pub doomed: Vec<String>,
    /// The children of the deleted frames: they stay, leave their frame, and become the
    /// selection.
    pub kept: Vec<String>,
    /// The containers whose label is deleted without them: they lose the label.
    pub unbound: Vec<String>,
    /// The kept children as they stay: out of their frame, in board order.
    pub freed: Vec<DrawElement>,
    /// What is selected after the delete, when children are kept: what a click on each of
    /// them takes at the level being edited. Empty when none is kept, where the selection
    /// is what deleting inside the edited group leaves (`after_delete_within`).
    pub selection: Vec<String>,
}

// ------------------------------------------------------------------ the model

/// A kept child out of its frame.
pub open spec fn unframed(e: ElementView) -> ElementView {
    ElementView { frame_id: None, ..e }
}

/// Frees each element whose id is kept.
pub open spec fn free_step(kept: Set<Seq<char>>) -> spec_fn(ElementView) -> Option<ElementView> {
    |e: ElementView|
        if kept.contains(e.id) {
            Some(unframed(e))
        } else {
            None
        }
}

/// The selection after a delete that kept children.
pub open spec fn selection_on_delete(s: Seq<ElementView>, kept: Set<Seq<char>>, editing: Option<Seq<char>>) -> Set<
    Seq<char>,
> {
    if kept == Set::<Seq<char>>::empty() {
        Set::empty()
    } else {
        crate::group::expanded(s, kept, editing)
    }
}

/// The first element of `s` with id `id` (a board holds each id once).
pub open spec fn named(s: Seq<ElementView>, id: Seq<char>) -> Option<ElementView> {
    match first_such(s.len() as int, |j: int| s[j].id == id) {
        Some(j) => Some(s[j]),
        None => None,
    }
}

/// The children a delete of `sel` keeps: the live children of the selected frames.
pub open spec fn kept_on_delete(s: Seq<ElementView>, sel: Set<Seq<char>>) -> Set<Seq<char>> {
    children_of(s, frames_of(s, sel))
}

/// Whether the selected `id` stays: a kept child, or the label of one.
pub open spec fn spared_on_delete(s: Seq<ElementView>, kept: Set<Seq<char>>, id: Seq<char>) -> bool {
    ||| kept.contains(id)
    ||| (named(s, id) is Some && named(s, id).unwrap().container_id is Some && kept.contains(
        named(s, id).unwrap().container_id.unwrap(),
    ))
}

/// Whether the `k`-th selected id goes.
pub open spec fn goes(s: Seq<ElementView>, sel: Seq<Seq<char>>, k: int) -> bool {
    !spared_on_delete(s, kept_on_delete(s, Set::new(|x: Seq<char>| sel.contains(x))), sel[k])
}

/// The selected ids that go.
pub open spec fn doomed_picked(s: Seq<ElementView>, sel: Seq<Seq<char>>) -> Set<Seq<char>> {
    collected(sel.len() as int, |k: int| goes(s, sel, k), |k: int| sel[k])
}

/// The labels of what goes.
pub open spec fn doomed_labels(s: Seq<ElementView>, sel: Seq<Seq<char>>) -> Set<Seq<char>> {
    collected(
        sel.len() as int,
        |k: int| goes(s, sel, k) && named(s, sel[k]) is Some && named(s, sel[k]).unwrap().bound_text_id is Some,
        |k: int| named(s, sel[k]).unwrap().bound_text_id.unwrap(),
    )
}

/// Everything a delete of `sel` takes: what goes, with its labels.
pub open spec fn doomed_on_delete(s: Seq<ElementView>, sel: Seq<Seq<char>>) -> Set<Seq<char>> {
    doomed_picked(s, sel).union(doomed_labels(s, sel))
}

/// The containers on the board whose label goes without them.
pub open spec fn unbound_on_delete(s: Seq<ElementView>, sel: Seq<Seq<char>>) -> Set<Seq<char>> {
    collected(
        sel.len() as int,
        |k: int|
            {
                let e = named(s, sel[k]);
                &&& goes(s, sel, k)
                &&& e is Some
                &&& e.unwrap().container_id is Some
                &&& !doomed_on_delete(s, sel).contains(e.unwrap().container_id.unwrap())
                &&& named(s, e.unwrap().container_id.unwrap()) is Some
            },
        |k: int| named(s, sel[k]).unwrap().container_id.unwrap(),
    )
}

/// Where the first element with id `id` stands.
pub(crate) fn position_named(elements: &[DrawElement], id: &String) -> (r: Option<usize>)
    ensures
        match r {
            Some(j) => j < elements.len() && named(scene(elements@), id@) == Some(scene(elements@)[j as int]),
            None => named(scene(elements@), id@) is None,
        },
{
    let ghost s = scene(elements@);
    let ghost p = |j: int| s[j].id == id@;
    proof {
        lemma_first_such(s.len() as int, p);
    }
    let mut j: usize = 0;
    while j < elements.len()
        invariant
            j <= elements.len(),
            s == scene(elements@),
            p == (|j: int| s[j].id == id@),
            forall|k: int| 0 <= k < j ==> !#[trigger] p(k),
        decreases elements.len() - j,
    {
        assert(s[j as int] == elements@[j as int]@);
        if same_text(&elements[j].id, id) {
            proof {
                lemma_first_found(s.len() as int, p, j as int);
            }
            return Some(j);
        }
        j = j + 1;
    }
    None
}

/// The children a delete of `selected` keeps.
fn kept_children(elements: &[DrawElement], selected: &Vec<String>) -> (r: Vec<String>)
    ensures
        distinct(r@),
        idset(r@) == kept_on_delete(scene(elements@), idset(selected@)),
{
    let ghost s = scene(elements@);
    let ghost sel = idset(selected@);
    let ghost fp = |i: int| sel.contains(s[i].id) && crate::element::frame_kind(s[i]);
    let ghost ff = |i: int| s[i].id;
    let mut frames: Vec<String> = Vec::new();
    let mut i: usize = 0;
    while i < elements.len()
        invariant
            i <= elements.len(),
            s == scene(elements@),
            sel == idset(selected@),
            fp == (|i: int| sel.contains(s[i].id) && crate::element::frame_kind(s[i])),
            ff == (|i: int| s[i].id),
            distinct(frames@),
            idset(frames@) == collected(i as int, fp, ff),
        decreases elements.len() - i,
    {
        proof {
            lemma_collected_step(i as int, fp, ff);
        }
        assert(s[i as int] == elements@[i as int]@);
        if contains_id(selected, &elements[i].id) && is_frame(&elements[i]) {
            add_id(&mut frames, elements[i].id.clone());
        }
        i = i + 1;
    }
    let ghost fs = idset(frames@);
    let ghost cp = |i: int| !s[i].is_deleted && s[i].frame_id is Some && fs.contains(s[i].frame_id.unwrap());
    let mut kept: Vec<String> = Vec::new();
    let mut j: usize = 0;
    while j < elements.len()
        invariant
            j <= elements.len(),
            s == scene(elements@),
            fs == idset(frames@),
            cp == (|i: int| !s[i].is_deleted && s[i].frame_id is Some && fs.contains(s[i].frame_id.unwrap())),
            ff == (|i: int| s[i].id),
            distinct(kept@),
            idset(kept@) == collected(j as int, cp, ff),
        decreases elements.len() - j,
    {
        proof {
            lemma_collected_step(j as int, cp, ff);
        }
        assert(s[j as int] == elements@[j as int]@);
        let element = &elements[j];
        let in_frame = match &element.frame_id {
            Some(f) => contains_id(&frames, f),
            None => false,
        };
        if !element.is_deleted && in_frame {
            add_id(&mut kept, element.id.clone());
        }
        j = j + 1;
    }
    kept
}

/// Whether the selected `id` stays, given the kept children.
fn spared(elements: &[DrawElement], kept: &Vec<String>, id: &String) -> (r: bool)
    ensures
        r == spared_on_delete(scene(elements@), idset(kept@), id@),
{
    if contains_id(kept, id) {
        return true;
    }
    match position_named(elements, id) {
        Some(j) => match &elements[j].container_id {
            Some(c) => contains_id(kept, c),
            None => false,
        },
        None => false,
    }
}

/// What deleting `selected` does: what goes, what stays as the deleted frames' children,
/// and which containers lose their label.
pub fn delete_plan(elements: &[DrawElement], selected: &Vec<String>, editing: Option<&str>) -> (r: DeletePlan)
    ensures
        scene(r.freed@) == scene(elements@).filter_map(free_step(kept_on_delete(scene(elements@), idset(selected@)))),
        distinct(r.selection@),
        idset(r.selection@) == selection_on_delete(
            scene(elements@),
            kept_on_delete(scene(elements@), idset(selected@)),
            crate::element::strv(editing),
        ),
        distinct(r.kept@),
        idset(r.kept@) == kept_on_delete(scene(elements@), idset(selected@)),
        distinct(r.doomed@),
        idset(r.doomed@) == doomed_on_delete(scene(elements@), sv(selected@)),
        distinct(r.unbound@),
        idset(r.unbound@) == unbound_on_delete(scene(elements@), sv(selected@)),
{
    let ghost s = scene(elements@);
    let ghost sel = sv(selected@);
    let kept = kept_children(elements, selected);
    let ghost kp = idset(kept@);
    assert(Set::new(|x: Seq<char>| sel.contains(x)) =~= idset(selected@));
    assert(kp == kept_on_delete(s, Set::new(|x: Seq<char>| sel.contains(x))));
    let ghost gp = |k: int| goes(s, sel, k);
    let ghost gf = |k: int| sel[k];
    let ghost lp = |k: int|
        goes(s, sel, k) && named(s, sel[k]) is Some && named(s, sel[k]).unwrap().bound_text_id is Some;
    let ghost lf = |k: int| named(s, sel[k]).unwrap().bound_text_id.unwrap();
    let mut doomed: Vec<String> = Vec::new();
    let mut k: usize = 0;
    while k < selected.len()
        invariant
            k <= selected.len(),
            s == scene(elements@),
            sel == sv(selected@),
            kp == idset(kept@),
            kp == kept_on_delete(s, Set::new(|x: Seq<char>| sel.contains(x))),
            gp == (|k: int| goes(s, sel, k)),
            gf == (|k: int| sel[k]),
            lp == (|k: int|
                goes(s, sel, k) && named(s, sel[k]) is Some && named(s, sel[k]).unwrap().bound_text_id is Some),
            lf == (|k: int| named(s, sel[k]).unwrap().bound_text_id.unwrap()),
            distinct(doomed@),
            idset(doomed@) == collected(k as int, gp, gf).union(collected(k as int, lp, lf)),
        decreases selected.len() - k,
    {
        proof {
            lemma_collected_step(k as int, gp, gf);
            lemma_collected_step(k as int, lp, lf);
        }
        let id = &selected[k];
        assert(sel[k as int] == id@);
        if !spared(elements, &kept, id) {
            add_id(&mut doomed, id.clone());
            match position_named(elements, id) {
                Some(j) => match &elements[j].bound_text_id {
                    Some(b) => {
                        add_id(&mut doomed, b.clone());
                    },
                    None => {},
                },
                None => {},
            }
        }
        assert(idset(doomed@) =~= collected(k + 1, gp, gf).union(collected(k + 1, lp, lf)));
        k = k + 1;
    }
    let ghost dm = idset(doomed@);
    assert(dm == doomed_on_delete(s, sel));
    let ghost up = |k: int|
        {
            let e = named(s, sel[k]);
            &&& goes(s, sel, k)
            &&& e is Some
            &&& e.unwrap().container_id is Some
            &&& !doomed_on_delete(s, sel).contains(e.unwrap().container_id.unwrap())
            &&& named(s, e.unwrap().container_id.unwrap()) is Some
        };
    let ghost uf = |k: int| named(s, sel[k]).unwrap().container_id.unwrap();
    let mut unbound: Vec<String> = Vec::new();
    let mut m: usize = 0;
    while m < selected.len()
        invariant
            m <= selected.len(),
            s == scene(elements@),
            sel == sv(selected@),
            kp == idset(kept@),
            kp == kept_on_delete(s, Set::new(|x: Seq<char>| sel.contains(x))),
            dm == idset(doomed@),
            dm == doomed_on_delete(s, sel),
            up == (|k: int|
                {
                    let e = named(s, sel[k]);
                    &&& goes(s, sel, k)
                    &&& e is Some
                    &&& e.unwrap().container_id is Some
                    &&& !doomed_on_delete(s, sel).contains(e.unwrap().container_id.unwrap())
                    &&& named(s, e.unwrap().container_id.unwrap()) is Some
                }),
            uf == (|k: int| named(s, sel[k]).unwrap().container_id.unwrap()),
            distinct(unbound@),
            idset(unbound@) == collected(m as int, up, uf),
        decreases selected.len() - m,
    {
        proof {
            lemma_collected_step(m as int, up, uf);
        }
        let id = &selected[m];
        assert(sel[m as int] == id@);
        if !spared(elements, &kept, id) {
            match position_named(elements, id) {
                Some(j) => match &elements[j].container_id {
                    Some(c) => {
                        if !contains_id(&doomed, c) && position_named(elements, c).is_some() {
                            add_id(&mut unbound, c.clone());
                        }
                    },
                    None => {},
                },
                None => {},
            }
        }
        assert(idset(unbound@) =~= collected(m + 1, up, uf));
        m = m + 1;
    }
    let ghost fs = free_step(kp);
    let mut freed: Vec<DrawElement> = Vec::new();
    let mut i: usize = 0;
    while i < elements.len()
        invariant
            i <= elements.len(),
            s == scene(elements@),
            kp == idset(kept@),
            fs == free_step(kp),
            scene(freed@) == s.take(i as int).filter_map(fs),
        decreases elements.len() - i,
    {
        proof {
            crate::group::lemma_filter_map_step(s, fs, i as int);
        }
        assert(s[i as int] == elements@[i as int]@);
        if contains_id(&kept, &elements[i].id) {
            let mut next = elements[i].duplicate();
            next.frame_id = None;
            assert(next@ =~= unframed(s[i as int]));
            let ghost before = scene(freed@);
            freed.push(next);
            assert(scene(freed@) =~= before.push(unframed(s[i as int])));
        }
        i = i + 1;
    }
    assert(s.take(elements.len() as int) =~= s);
    let selection = if kept.len() == 0 {
        assert(idset(kept@) =~= Set::<Seq<char>>::empty());
        let v: Vec<String> = Vec::new();
        assert(idset(v@) =~= Set::<Seq<char>>::empty());
        v
    } else {
        assert(idset(kept@).contains(kept@[0]@)) by {
            assert(sv(kept@)[0] == kept@[0]@);
        }
        assert(idset(kept@) != Set::<Seq<char>>::empty()) by {
            assert(!Set::<Seq<char>>::empty().contains(kept@[0]@));
        }
        let base = crate::element::copy_ids(&kept);
        assert(idset(base@) =~= idset(kept@));
        crate::group::expand_within(elements, base, editing)
    };
    DeletePlan { doomed, kept, unbound, freed, selection }
}

} // verus!

verus! {

/// Deleting a frame does not take the work in it: a child of a deleted frame is never
/// deleted for being selected, even along with the frame; only as the label of something
/// that goes.
pub proof fn lemma_frame_children_survive(s: Seq<ElementView>, sel: Seq<Seq<char>>, x: Seq<char>)
    requires
        kept_on_delete(s, Set::new(|y: Seq<char>| sel.contains(y))).contains(x),
    ensures
        !doomed_picked(s, sel).contains(x),
        doomed_on_delete(s, sel).contains(x) ==> doomed_labels(s, sel).contains(x),
{
    if doomed_picked(s, sel).contains(x) {
        let k = choose|k: int| 0 <= k < sel.len() && goes(s, sel, k) && #[trigger] sel[k] == x;
        assert(goes(s, sel, k));
    }
}

} // verus!
