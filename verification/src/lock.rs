//! Locking the selection: one toggle for all of it.

use vstd::prelude::*;
use crate::element::{scene, DrawElement, ElementView};

verus! {

/// Whether the toggle locks: something selected is unlocked.
pub open spec fn locks(s: Seq<ElementView>) -> bool {
    exists|i: int| 0 <= i < s.len() && !(#[trigger] s[i]).locked
}

/// An element locked or unlocked.
pub open spec fn with_lock(e: ElementView, lock: bool) -> ElementView {
    ElementView { locked: lock, ..e }
}

/// Whether the selection reads as locked: something is selected and all of it is locked.
pub open spec fn all_locked(s: Seq<ElementView>) -> bool {
    s.len() > 0 && forall|i: int| 0 <= i < s.len() ==> (#[trigger] s[i]).locked
}

/// The patches that toggle the lock on `selected`: when anything is unlocked all of it
/// locks, and only when all of it is locked does it all unlock.
pub fn toggle_lock(selected: &[DrawElement]) -> (r: Vec<DrawElement>)
    ensures
        scene(r@) == scene(selected@).map_values(|e: ElementView| with_lock(e, locks(scene(selected@)))),
{
    let ghost s = scene(selected@);
    let mut lock = false;
    let mut i: usize = 0;
    while i < selected.len()
        invariant
            i <= selected.len(),
            s == scene(selected@),
            lock == exists|j: int| 0 <= j < i && !(#[trigger] s[j]).locked,
        decreases selected.len() - i,
    {
        assert(s[i as int] == selected@[i as int]@);
        if !selected[i].locked() {
            lock = true;
        }
        i = i + 1;
    }
    let ghost f = |e: ElementView| with_lock(e, lock);
    let mut out: Vec<DrawElement> = Vec::new();
    let mut k: usize = 0;
    while k < selected.len()
        invariant
            k <= selected.len(),
            s == scene(selected@),
            lock == locks(s),
            f == (|e: ElementView| with_lock(e, lock)),
            scene(out@) == s.take(k as int).map_values(f),
        decreases selected.len() - k,
    {
        let mut next = selected[k].duplicate();
        next.locked = lock;
        assert(next@ =~= with_lock(s[k as int], lock));
        let ghost before = scene(out@);
        out.push(next);
        assert(scene(out@) =~= before.push(next@));
        assert(s.take(k + 1).map_values(f) =~= s.take(k as int).map_values(f).push(f(s[k as int])));
        k = k + 1;
    }
    assert(s.take(selected.len() as int) =~= s);
    assert(scene(out@) =~= s.map_values(f));
    out
}

/// Whether the selection reads as locked.
pub fn selection_locked(selected: &[DrawElement]) -> (r: bool)
    ensures
        r == all_locked(scene(selected@)),
{
    let ghost s = scene(selected@);
    if selected.len() == 0 {
        return false;
    }
    let mut i: usize = 0;
    while i < selected.len()
        invariant
            i <= selected.len(),
            s == scene(selected@),
            forall|j: int| 0 <= j < i ==> (#[trigger] s[j]).locked,
        decreases selected.len() - i,
    {
        assert(s[i as int] == selected@[i as int]@);
        if !selected[i].locked() {
            return false;
        }
        i = i + 1;
    }
    true
}

/// Toggling the lock twice gives a selection that was all locked, or all unlocked, its
/// locks back.
pub proof fn lemma_toggle_lock_twice(s: Seq<ElementView>)
    requires
        s.len() > 0,
        all_locked(s) || forall|i: int| 0 <= i < s.len() ==> !(#[trigger] s[i]).locked,
    ensures
        ({
            let once = s.map_values(|e: ElementView| with_lock(e, locks(s)));
            once.map_values(|e: ElementView| with_lock(e, locks(once))) == s
        }),
{
    let once = s.map_values(|e: ElementView| with_lock(e, locks(s)));
    if all_locked(s) {
        assert(!locks(s));
        assert(once[0] == with_lock(s[0], false));
        assert(locks(once));
    } else {
        assert(!s[0].locked);
        assert(locks(s));
        assert forall|i: int| 0 <= i < once.len() implies (#[trigger] once[i]).locked by {
            assert(once[i] == with_lock(s[i], true));
        }
        assert(!locks(once));
    }
    let twice = once.map_values(|e: ElementView| with_lock(e, locks(once)));
    assert forall|i: int| 0 <= i < s.len() implies twice[i] == s[i] by {
        assert(once[i] == with_lock(s[i], locks(s)));
        if all_locked(s) {
            assert(s[i].locked);
        } else {
            assert(!s[i].locked);
        }
    }
    assert(twice =~= s);
}

} // verus!
