//! Closing a line into a fillable polygon, and opening it back up.
//!
//! Which lines the toggle offers itself for, which way it goes, and what it writes on each
//! target: closing a line merges its last point into the first when the two ends already
//! sit close, and appends a point on the first otherwise. How far apart the ends are, and
//! whether the points can form a polygon at all, are measured on coordinates by the caller
//! and handed in.

use vstd::prelude::*;
use crate::element::{scene, DrawElement, DrawElementType, ElementView};
use crate::group::lemma_filter_map_step;

verus! {

/// A line with points enough to close into a loop.
pub open spec fn closable(e: ElementView) -> bool {
    e.kind == DrawElementType::Line && e.point_count >= 4
}

/// Whether the toggle closes the targets: some target is not a polygon yet.
pub open spec fn closes(s: Seq<ElementView>) -> bool {
    exists|i: int| 0 <= i < s.len() && #[trigger] s[i].polygon != Some(true)
}

/// How many points a line has once closed: unchanged when its points cannot form a
/// polygon (`can_close`); one more when its ends are apart (`ends_near` false) or it has
/// fewer than four points, the new one on the first; unchanged when the last point is
/// merged into the first.
pub open spec fn closed_count(e: ElementView, can_close: bool, ends_near: bool) -> int {
    if !can_close {
        e.point_count as int
    } else if !ends_near || e.point_count < 4 {
        e.point_count + 1
    } else {
        e.point_count as int
    }
}

/// A line once toggled to `next`: flagged; closed with its closing point, or opened with
/// its fill cleared.
pub open spec fn toggled(e: ElementView, next: bool, can_close: bool, ends_near: bool) -> ElementView {
    ElementView {
        polygon: Some(next),
        background_color: if next {
            e.background_color
        } else {
            "transparent"@
        },
        point_count: if next {
            closed_count(e, can_close, ends_near) as usize
        } else {
            e.point_count
        },
        ..e
    }
}

/// The patch the target at `i` yields: lines only.
pub open spec fn patch_at(
    s: Seq<ElementView>,
    next: bool,
    can_close: Seq<bool>,
    ends_near: Seq<bool>,
) -> spec_fn(int) -> Option<ElementView> {
    |i: int|
        if s[i].kind == DrawElementType::Line {
            Some(toggled(s[i], next, can_close[i], ends_near[i]))
        } else {
            None
        }
}

/// The patches toggling the targets `s` write, in order.
pub open spec fn toggle_patches(s: Seq<ElementView>, can_close: Seq<bool>, ends_near: Seq<bool>) -> Seq<
    ElementView,
> {
    Seq::new(s.len(), |i: int| i).filter_map(patch_at(s, closes(s), can_close, ends_near))
}

/// How many points an element has.
fn point_count(element: &DrawElement) -> (r: usize)
    ensures
        r == element@.point_count,
{
    element.point_count
}

/// Whether the toggle would do anything: at least one element, and every one a line with
/// four points or more.
pub fn can_toggle_polygon(elements: &[&DrawElement]) -> (r: bool)
    ensures
        r == (elements.len() > 0 && forall|i: int|
            0 <= i < elements.len() ==> closable(#[trigger] elements@[i]@)),
{
    if elements.len() == 0 {
        return false;
    }
    let mut i: usize = 0;
    while i < elements.len()
        invariant
            i <= elements.len(),
            forall|j: int| 0 <= j < i ==> closable(#[trigger] elements@[j]@),
        decreases elements.len() - i,
    {
        let element: &DrawElement = elements[i];
        if !(element.kind == DrawElementType::Line && point_count(element) >= 4) {
            assert(!closable(elements@[i as int]@));
            return false;
        }
        i = i + 1;
    }
    true
}

/// A target turned to `next_state`; `can_close` and `ends_near` say whether its points can
/// form a polygon and whether its ends already sit close.
fn apply_polygon_state(element: &DrawElement, next_state: bool, can_close: bool, ends_near: bool) -> (r:
    DrawElement)
    requires
        element@.point_count < usize::MAX,
    ensures
        r@ == toggled(element@, next_state, can_close, ends_near),
{
    let mut next = element.duplicate();
    if next_state {
        if can_close && (!ends_near || next.point_count < 4) {
            next.point_count = next.point_count + 1;
        }
    } else {
        next.background_color = "transparent".to_owned();
    }
    next.polygon = Some(next_state);
    proof {
        reveal_strlit("transparent");
    }
    assert(next@ =~= toggled(element@, next_state, can_close, ends_near));
    next
}

/// The patches that toggle `targets`: when any target is not a polygon yet, every line
/// among them becomes one, closed; only when all already are do they open back up, their
/// fill cleared. Targets that are not lines yield no patch. For each target, `can_close`
/// says whether its points can form a polygon and `ends_near` whether its ends sit within
/// the merge distance.
pub fn toggle_polygon(targets: &[DrawElement], can_close: &[bool], ends_near: &[bool]) -> (r: Vec<DrawElement>)
    requires
        can_close.len() == targets.len(),
        ends_near.len() == targets.len(),
        forall|i: int| 0 <= i < targets.len() ==> #[trigger] targets@[i]@.point_count < usize::MAX,
    ensures
        scene(r@) == toggle_patches(scene(targets@), can_close@, ends_near@),
{
    let ghost s = scene(targets@);
    let mut next_state = false;
    let mut i: usize = 0;
    while i < targets.len()
        invariant
            i <= targets.len(),
            s == scene(targets@),
            next_state == exists|j: int| 0 <= j < i && #[trigger] s[j].polygon != Some(true),
        decreases targets.len() - i,
    {
        assert(s[i as int] == targets@[i as int]@);
        if !targets[i].is_polygon() {
            next_state = true;
        }
        i = i + 1;
    }
    let ghost idx = Seq::new(s.len(), |i: int| i);
    let ghost f = patch_at(s, next_state, can_close@, ends_near@);
    let mut out: Vec<DrawElement> = Vec::new();
    let mut k: usize = 0;
    while k < targets.len()
        invariant
            k <= targets.len(),
            can_close.len() == targets.len(),
            ends_near.len() == targets.len(),
            forall|i: int| 0 <= i < targets.len() ==> #[trigger] targets@[i]@.point_count < usize::MAX,
            s == scene(targets@),
            idx == Seq::new(s.len(), |i: int| i),
            f == patch_at(s, next_state, can_close@, ends_near@),
            scene(out@) == idx.take(k as int).filter_map(f),
        decreases targets.len() - k,
    {
        proof {
            lemma_filter_map_step(idx, f, k as int);
        }
        assert(s[k as int] == targets@[k as int]@);
        assert(idx[k as int] == k);
        if targets[k].kind == DrawElementType::Line {
            let patch = apply_polygon_state(&targets[k], next_state, can_close[k], ends_near[k]);
            out.push(patch);
            assert(scene(out@) =~= idx.take(k as int).filter_map(f).push(
                toggled(s[k as int], next_state, can_close@[k as int], ends_near@[k as int]),
            ));
        }
        k = k + 1;
    }
    assert(idx.take(targets.len() as int) =~= idx);
    out
}

} // verus!

verus! {

/// A toggle leaves every line it patches in one state: all closed when any target was
/// open, all opened when every target was closed.
pub proof fn lemma_toggle_uniform(s: Seq<ElementView>, can_close: Seq<bool>, ends_near: Seq<bool>)
    ensures
        forall|k: int|
            0 <= k < toggle_patches(s, can_close, ends_near).len() ==> (#[trigger] toggle_patches(
                s,
                can_close,
                ends_near,
            )[k]).polygon == Some(closes(s)),
{
    lemma_patches_flagged(Seq::new(s.len(), |i: int| i), patch_at(s, closes(s), can_close, ends_near), closes(s));
}

/// Every patch a toggle to `next` writes is flagged `next`.
proof fn lemma_patches_flagged(t: Seq<int>, f: spec_fn(int) -> Option<ElementView>, next: bool)
    requires
        forall|i: int| #[trigger] f(i) is Some ==> f(i).unwrap().polygon == Some(next),
    ensures
        forall|k: int| 0 <= k < t.filter_map(f).len() ==> (#[trigger] t.filter_map(f)[k]).polygon == Some(next),
    decreases t.len(),
{
    if t.len() > 0 {
        lemma_patches_flagged(t.drop_last(), f, next);
        let rest = t.drop_last().filter_map(f);
        match f(t.last()) {
            Some(p) => {
                assert(t.filter_map(f) == rest + seq![p]);
                assert forall|k: int| 0 <= k < (rest + seq![p]).len() implies (#[trigger] (rest + seq![p])[k]).polygon
                    == Some(next) by {
                    if k < rest.len() {
                        assert((rest + seq![p])[k] == rest[k]);
                    }
                }
            },
            None => {},
        }
    }
}

} // verus!
