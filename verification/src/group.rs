//! Groups, and the one rule that decides what a click selects.
//!
//! A group is an id that several elements carry; `group_ids` lists the ones an element
//! belongs to, innermost first. That list is the nesting: a group inside a group is two
//! ids on the same element.

use vstd::prelude::*;
use crate::element::{lemma_idset_single, ov, same_text, copy_ids, add_id, distinct, idset, sv, contains_id, position_of, rv, scene, strv, DrawElement, ElementView};

verus! {

// ------------------------------------------------------------------ the model

/// The group a click on an element with groups `g` selects, given the group being edited:
/// with nothing entered the outermost; inside `editing` the outermost still strictly
/// inside it; nothing when the element is not in the edited group or nothing is left
/// inside it.
pub open spec fn group_at(g: Seq<Seq<char>>, editing: Option<Seq<char>>) -> Option<Seq<char>> {
    match editing {
        None => if g.len() > 0 {
            Some(g.last())
        } else {
            None
        },
        Some(e) => match g.index_of_first(e) {
            Some(k) => if k > 0 {
                Some(g[k - 1])
            } else {
                None
            },
            None => None,
        },
    }
}

/// Whether an element carries `group` at any depth.
pub open spec fn in_group(e: ElementView, group: Seq<char>) -> bool {
    e.group_ids.contains(group)
}

/// Whether an element is a live member of `group`.
pub open spec fn carries(e: ElementView, group: Seq<char>) -> bool {
    !e.is_deleted && in_group(e, group)
}

/// How many live elements of `s` carry `group`.
pub open spec fn carriers(s: Seq<ElementView>, group: Seq<char>) -> nat
    decreases s.len(),
{
    if s.len() == 0 {
        0
    } else {
        carriers(s.drop_last(), group) + if carries(s.last(), group) {
            1nat
        } else {
            0nat
        }
    }
}

/// A group is still a group while at least two live elements carry it.
pub open spec fn live_group(s: Seq<ElementView>, group: Seq<char>) -> bool {
    carriers(s, group) >= 2
}

/// The group directly around `group` in the list `g`.
pub open spec fn parent_of(g: Seq<Seq<char>>, group: Seq<char>) -> Option<Seq<char>> {
    match g.index_of_first(group) {
        Some(k) => if k + 1 < g.len() {
            Some(g[k + 1])
        } else {
            None
        },
        None => None,
    }
}

/// The first index below `n` where `p` holds.
pub open spec fn first_such(n: int, p: spec_fn(int) -> bool) -> Option<int> {
    if exists|i: int| 0 <= i < n && #[trigger] p(i) {
        Some(choose|i: int| 0 <= i < n && #[trigger] p(i) && forall|j: int| 0 <= j < i ==> !#[trigger] p(j))
    } else {
        None
    }
}

/// `first_such` picks the least index that satisfies `p`.
pub proof fn lemma_first_such(n: int, p: spec_fn(int) -> bool)
    ensures
        match first_such(n, p) {
            Some(k) => 0 <= k < n && p(k) && forall|j: int| 0 <= j < k ==> !#[trigger] p(j),
            None => forall|i: int| 0 <= i < n ==> !#[trigger] p(i),
        },
    decreases n,
{
    if exists|i: int| 0 <= i < n && #[trigger] p(i) {
        lemma_least_exists(n, p);
    }
}

proof fn lemma_least_exists(n: int, p: spec_fn(int) -> bool)
    requires
        exists|i: int| 0 <= i < n && #[trigger] p(i),
    ensures
        exists|k: int| 0 <= k < n && #[trigger] p(k) && forall|j: int| 0 <= j < k ==> !#[trigger] p(j),
    decreases n,
{
    if exists|i: int| 0 <= i < n - 1 && #[trigger] p(i) {
        lemma_least_exists(n - 1, p);
        let k = choose|k: int| 0 <= k < n - 1 && #[trigger] p(k) && forall|j: int| 0 <= j < k ==> !#[trigger] p(j);
        assert(0 <= k < n && p(k) && forall|j: int| 0 <= j < k ==> !#[trigger] p(j));
    } else {
        assert(p(n - 1));
        assert(forall|j: int| 0 <= j < n - 1 ==> !#[trigger] p(j));
    }
}

/// An exec scan that finds `p` first at `i` finds what `first_such` names.
pub proof fn lemma_first_found(n: int, p: spec_fn(int) -> bool, i: int)
    requires
        0 <= i < n,
        p(i),
        forall|j: int| 0 <= j < i ==> !#[trigger] p(j),
    ensures
        first_such(n, p) == Some(i),
{
    lemma_first_such(n, p);
    let k = first_such(n, p).unwrap();
    if k < i {
        assert(!p(k));
    } else if k > i {
        assert(!p(i));
    }
}

/// The last index below `n` where `p` holds.
pub open spec fn last_such(n: int, p: spec_fn(int) -> bool) -> Option<int> {
    if exists|i: int| 0 <= i < n && #[trigger] p(i) {
        Some(choose|i: int| 0 <= i < n && #[trigger] p(i) && forall|j: int| i < j < n ==> !#[trigger] p(j))
    } else {
        None
    }
}

proof fn lemma_greatest_exists(n: int, p: spec_fn(int) -> bool, lo: int)
    requires
        0 <= lo <= n,
        exists|i: int| lo <= i < n && #[trigger] p(i),
    ensures
        exists|k: int| 0 <= k < n && #[trigger] p(k) && forall|j: int| k < j < n ==> !#[trigger] p(j),
    decreases n - lo,
{
    if exists|i: int| lo + 1 <= i < n && #[trigger] p(i) {
        lemma_greatest_exists(n, p, lo + 1);
    } else {
        assert(p(lo));
        assert(forall|j: int| lo < j < n ==> !#[trigger] p(j));
    }
}

/// `last_such` picks the greatest index that satisfies `p`.
pub proof fn lemma_last_such(n: int, p: spec_fn(int) -> bool)
    ensures
        match last_such(n, p) {
            Some(k) => 0 <= k < n && p(k) && forall|j: int| k < j < n ==> !#[trigger] p(j),
            None => forall|i: int| 0 <= i < n ==> !#[trigger] p(i),
        },
{
    if exists|i: int| 0 <= i < n && #[trigger] p(i) {
        lemma_greatest_exists(n, p, 0);
    }
}

/// A backward exec scan that finds `p` first at `i` finds what `last_such` names.
pub proof fn lemma_last_found(n: int, p: spec_fn(int) -> bool, i: int)
    requires
        0 <= i < n,
        p(i),
        forall|j: int| i < j < n ==> !#[trigger] p(j),
    ensures
        last_such(n, p) == Some(i),
{
    lemma_last_such(n, p);
    let k = last_such(n, p).unwrap();
    if k < i {
        assert(!p(i));
    } else if k > i {
        assert(!p(k));
    }
}

/// Carriers are counted up a prefix one element at a time.
pub proof fn lemma_carriers_step(s: Seq<ElementView>, group: Seq<char>, i: int)
    requires
        0 <= i < s.len(),
    ensures
        carriers(s.take(i + 1), group) == carriers(s.take(i), group) + if carries(s[i], group) {
            1nat
        } else {
            0nat
        },
{
    assert(s.take(i + 1).drop_last() =~= s.take(i));
}

/// The groups the elements among the first `n` of `s` whose ids are in `ids` select.
pub open spec fn touched_upto(
    s: Seq<ElementView>,
    ids: Set<Seq<char>>,
    editing: Option<Seq<char>>,
    n: int,
) -> Set<Seq<char>> {
    Set::new(
        |g: Seq<char>|
            exists|i: int|
                0 <= i < n && ids.contains(s[i].id) && #[trigger] group_at(s[i].group_ids, editing)
                    == Some(g),
    )
}

/// The groups a click on each element of the selection `ids` selects.
pub open spec fn touched_groups(
    s: Seq<ElementView>,
    ids: Set<Seq<char>>,
    editing: Option<Seq<char>>,
) -> Set<Seq<char>> {
    touched_upto(s, ids, editing, s.len() as int)
}

/// Whether an element carries, at any depth, one of `groups`.
pub open spec fn shares(e: ElementView, groups: Set<Seq<char>>) -> bool {
    exists|k: int| 0 <= k < e.group_ids.len() && groups.contains(#[trigger] e.group_ids[k])
}

/// The ids of the elements among the first `n` of `s` that carry one of `groups`.
pub open spec fn members_upto(s: Seq<ElementView>, groups: Set<Seq<char>>, n: int) -> Set<
    Seq<char>,
> {
    Set::new(|x: Seq<char>| exists|j: int| 0 <= j < n && #[trigger] s[j].id == x && shares(s[j], groups))
}

/// The selection `ids` grown by every element of every group it touches.
pub open spec fn expanded(
    s: Seq<ElementView>,
    ids: Set<Seq<char>>,
    editing: Option<Seq<char>>,
) -> Set<Seq<char>> {
    ids.union(members_upto(s, touched_groups(s, ids, editing), s.len() as int))
}

/// The values `f(i)` for the indices `i` below `n` where `p(i)` holds.
pub open spec fn collected(n: int, p: spec_fn(int) -> bool, f: spec_fn(int) -> Seq<char>) -> Set<
    Seq<char>,
> {
    Set::new(|x: Seq<char>| exists|i: int| 0 <= i < n && p(i) && #[trigger] f(i) == x)
}

/// Collecting one more index adds its value exactly when it is picked.
pub proof fn lemma_collected_step(n: int, p: spec_fn(int) -> bool, f: spec_fn(int) -> Seq<char>)
    requires
        0 <= n,
    ensures
        collected(n + 1, p, f) == if p(n) {
            collected(n, p, f).insert(f(n))
        } else {
            collected(n, p, f)
        },
{
    let next = if p(n) {
        collected(n, p, f).insert(f(n))
    } else {
        collected(n, p, f)
    };
    assert forall|x: Seq<char>| collected(n + 1, p, f).contains(x) == next.contains(x) by {
        if collected(n + 1, p, f).contains(x) {
            let k = choose|k: int| 0 <= k < n + 1 && p(k) && #[trigger] f(k) == x;
            if k < n {
                assert(collected(n, p, f).contains(x));
            }
        }
        if collected(n, p, f).contains(x) {
            let k = choose|k: int| 0 <= k < n && p(k) && #[trigger] f(k) == x;
            assert(f(k) == x);
        }
        if p(n) && x == f(n) {
            assert(f(n) == x);
        }
    }
    assert(collected(n + 1, p, f) =~= next);
}

/// The labels of the shapes in `ids`.
pub open spec fn labels_of(s: Seq<ElementView>, ids: Set<Seq<char>>) -> Set<Seq<char>> {
    collected(
        s.len() as int,
        |i: int| ids.contains(s[i].id) && s[i].bound_text_id is Some,
        |i: int| s[i].bound_text_id.unwrap(),
    )
}

/// The selected elements that are not locked.
pub open spec fn unlocked_of(s: Seq<ElementView>, selected: Set<Seq<char>>) -> Set<Seq<char>> {
    collected(s.len() as int, |i: int| selected.contains(s[i].id) && !s[i].locked, |i: int| s[i].id)
}

/// Whether a live element of `s` is held by `selected`.
pub open spec fn held(e: ElementView, selected: Set<Seq<char>>) -> bool {
    !e.is_deleted && selected.contains(e.id)
}

/// The edited group stays while something is held, all of it is inside, and the group is
/// still a group.
pub open spec fn keeps(s: Seq<ElementView>, selected: Set<Seq<char>>, editing: Seq<char>) -> bool {
    &&& exists|i: int| 0 <= i < s.len() && #[trigger] held(s[i], selected)
    &&& forall|i: int| 0 <= i < s.len() && #[trigger] held(s[i], selected) ==> in_group(s[i], editing)
    &&& live_group(s, editing)
}

/// One more element mapped, at the end of a prefix.
pub proof fn lemma_filter_map_step<A, B>(s: Seq<A>, f: spec_fn(A) -> Option<B>, i: int)
    requires
        0 <= i < s.len(),
    ensures
        s.take(i + 1).filter_map(f) == match f(s[i]) {
            Some(b) => s.take(i).filter_map(f).push(b),
            None => s.take(i).filter_map(f),
        },
{
    assert(s.take(i + 1).drop_last() =~= s.take(i));
    assert(s.take(i + 1).last() == s[i]);
    match f(s[i]) {
        Some(b) => {
            assert(s.take(i).filter_map(f) + seq![b] =~= s.take(i).filter_map(f).push(b));
        },
        None => {},
    }
}

/// One more element kept or dropped, at the end of a prefix.
pub proof fn lemma_filter_step<A>(s: Seq<A>, p: spec_fn(A) -> bool, i: int)
    requires
        0 <= i < s.len(),
    ensures
        s.take(i + 1).filter(p) == if p(s[i]) {
            s.take(i).filter(p).push(s[i])
        } else {
            s.take(i).filter(p)
        },
{
    reveal(Seq::filter);
    assert(s.take(i + 1).drop_last() =~= s.take(i));
    assert(s.take(i + 1).last() == s[i]);
}

/// A shape settles what a selection is: a live element that is nobody's label.
pub open spec fn shape(e: ElementView) -> bool {
    !e.is_deleted && e.container_id is None
}

/// A shape the selection holds.
pub open spec fn picked(e: ElementView, selected: Set<Seq<char>>) -> bool {
    selected.contains(e.id) && shape(e)
}

/// The selection is exactly one group and nothing else: every shape it holds is selected
/// through the same group, which is still a group, and every shape of that group is held.
pub open spec fn single_group(
    s: Seq<ElementView>,
    selected: Set<Seq<char>>,
    editing: Option<Seq<char>>,
) -> bool {
    exists|g: Seq<char>|
        {
            &&& exists|i: int| 0 <= i < s.len() && #[trigger] picked(s[i], selected)
            &&& forall|i: int|
                0 <= i < s.len() && #[trigger] picked(s[i], selected) ==> group_at(
                    s[i].group_ids,
                    editing,
                ) == Some(g)
            &&& #[trigger] live_group(s, g)
            &&& forall|j: int|
                0 <= j < s.len() && shape(s[j]) && in_group(s[j], g) ==> selected.contains(
                    #[trigger] s[j].id,
                )
        }
}

/// Where a new group goes in an element's list: just inside the edited group, or
/// outermost.
pub open spec fn wrap_at(g: Seq<Seq<char>>, editing: Option<Seq<char>>) -> int {
    match editing {
        Some(e) => match g.index_of_first(e) {
            Some(k) => k,
            None => g.len() as int,
        },
        None => g.len() as int,
    }
}

/// The patch that puts an element in the new group `gid`.
pub open spec fn wrapped(e: ElementView, gid: Seq<char>, editing: Option<Seq<char>>) -> ElementView {
    ElementView { group_ids: e.group_ids.insert(wrap_at(e.group_ids, editing), gid), ..e }
}

/// The grouping patch of one element, if it is one `wanted` holds.
pub open spec fn group_step(
    wanted: Set<Seq<char>>,
    gid: Seq<char>,
    editing: Option<Seq<char>>,
) -> spec_fn(ElementView) -> Option<ElementView> {
    |e: ElementView|
        if wanted.contains(e.id) && !e.is_deleted {
            Some(wrapped(e, gid, editing))
        } else {
            None
        }
}

/// The patches that group `ids` (labels read in) under `gid`, in board order.
pub open spec fn grouping(
    s: Seq<ElementView>,
    ids: Set<Seq<char>>,
    gid: Seq<char>,
    editing: Option<Seq<char>>,
) -> Seq<ElementView> {
    s.filter_map(group_step(ids.union(labels_of(s, ids)), gid, editing))
}

/// The levels ungrouping removes: what a click on each held element selects, if that is
/// still a group.
pub open spec fn doomed_groups(
    s: Seq<ElementView>,
    selected: Set<Seq<char>>,
    editing: Option<Seq<char>>,
) -> Set<Seq<char>> {
    collected(
        s.len() as int,
        |i: int|
            held(s[i], selected) && group_at(s[i].group_ids, editing) is Some && live_group(
                s,
                group_at(s[i].group_ids, editing).unwrap(),
            ),
        |i: int| group_at(s[i].group_ids, editing).unwrap(),
    )
}

/// Whether a group is outside `doomed`.
pub open spec fn spared(doomed: Set<Seq<char>>) -> spec_fn(Seq<char>) -> bool {
    |g: Seq<char>| !doomed.contains(g)
}

/// The patch that takes `doomed` off an element.
pub open spec fn peeled(e: ElementView, doomed: Set<Seq<char>>) -> ElementView {
    ElementView { group_ids: e.group_ids.filter(spared(doomed)), ..e }
}

/// The ungrouping patch of one element, if it carries a doomed level.
pub open spec fn ungroup_step(doomed: Set<Seq<char>>) -> spec_fn(ElementView) -> Option<ElementView> {
    |e: ElementView|
        if !e.is_deleted && shares(e, doomed) {
            Some(peeled(e, doomed))
        } else {
            None
        }
}

/// The patches that ungroup: every live element carrying a doomed level loses it.
pub open spec fn ungrouping(s: Seq<ElementView>, doomed: Set<Seq<char>>) -> Seq<ElementView> {
    s.filter_map(ungroup_step(doomed))
}

/// Picks the live members of `group`, and, when `need_touch`, only those `touch` allows.
pub open spec fn carrier_at(
    s: Seq<ElementView>,
    group: Seq<char>,
    touch: Seq<bool>,
    need_touch: bool,
) -> spec_fn(int) -> bool {
    |i: int| carries(s[i], group) && (!need_touch || touch[i])
}

/// The level still being edited after a deletion inside `editing`: the group itself while
/// it is still a group, else the group around it if that one still is.
pub open spec fn level_after(s: Seq<ElementView>, editing: Seq<char>) -> Option<Seq<char>> {
    match first_such(s.len() as int, carrier_at(s, editing, Seq::empty(), false)) {
        None => None,
        Some(any) => if live_group(s, editing) {
            Some(editing)
        } else {
            match parent_of(s[any].group_ids, editing) {
                Some(p) => if live_group(s, p) {
                    Some(p)
                } else {
                    None
                },
                None => None,
            }
        },
    }
}

/// What of `ids` may be held: the ids of the live elements `touch` accepts.
pub open spec fn held_among(s: Seq<ElementView>, touch: Seq<bool>, ids: Set<Seq<char>>) -> Set<Seq<char>> {
    collected(s.len() as int, |i: int| ids.contains(s[i].id) && !s[i].is_deleted && touch[i], |i: int| s[i].id)
}

/// Where deleting inside `editing` leaves you: the level still edited, and what is held.
/// Only live elements that `touch` accepts are ever held; with none, nothing is. When
/// neither the edited level nor the one around it is still a group, the group is left,
/// holding what a click on the first touchable survivor selects, less what may not be
/// held.
pub open spec fn after_delete(s: Seq<ElementView>, editing: Seq<char>, touch: Seq<bool>) -> (
    Option<Seq<char>>,
    Set<Seq<char>>,
) {
    match first_such(s.len() as int, carrier_at(s, editing, Seq::empty(), false)) {
        None => (None, Set::empty()),
        Some(_) => {
            let first_level = match level_after(s, editing) {
                Some(l) => first_such(s.len() as int, carrier_at(s, l, touch, true)),
                None => None,
            };
            match first_level {
                Some(h) => (level_after(s, editing), set![s[h].id]),
                None => match first_such(s.len() as int, carrier_at(s, editing, touch, true)) {
                    Some(k) => (None, held_among(s, touch, expanded(s, set![s[k].id], None))),
                    None => (None, Set::empty()),
                },
            }
        },
    }
}

/// An element of the part taken out of the edited group.
pub open spec fn leaves(e: ElementView, moved: Set<Seq<char>>, editing: Seq<char>) -> bool {
    moved.contains(e.id) && e.group_ids.contains(editing)
}

/// Where the edited group sits in an element's list.
pub open spec fn edit_index(e: ElementView, editing: Seq<char>) -> int {
    e.group_ids.index_of_first(editing).unwrap()
}

/// An element of the part, without the edited group and every group around it.
pub open spec fn cut(e: ElementView, editing: Seq<char>) -> ElementView {
    ElementView { group_ids: e.group_ids.take(edit_index(e, editing)), ..e }
}

/// The patch of one element of the part.
pub open spec fn leave_step(moved: Set<Seq<char>>, editing: Seq<char>) -> spec_fn(ElementView) -> Option<
    ElementView,
> {
    |e: ElementView|
        if leaves(e, moved, editing) {
            Some(cut(e, editing))
        } else {
            None
        }
}

/// The levels the part leaves, among the first `n` elements.
pub open spec fn left_upto(s: Seq<ElementView>, moved: Set<Seq<char>>, editing: Seq<char>, n: int) -> Set<
    Seq<char>,
> {
    Set::new(
        |g: Seq<char>|
            exists|i: int|
                0 <= i < n && leaves(s[i], moved, editing) && #[trigger] s[i].group_ids.skip(
                    edit_index(s[i], editing),
                ).contains(g),
    )
}

/// The ids of the part.
pub open spec fn taken_out(s: Seq<ElementView>, moved: Set<Seq<char>>, editing: Seq<char>) -> Set<
    Seq<char>,
> {
    collected(s.len() as int, |i: int| leaves(s[i], moved, editing), |i: int| s[i].id)
}

/// Whether an element stays behind, live.
pub open spec fn stays(e: ElementView, taken: Set<Seq<char>>) -> bool {
    !e.is_deleted && !taken.contains(e.id)
}

/// How many elements staying behind carry `group`.
pub open spec fn stay_carriers(s: Seq<ElementView>, taken: Set<Seq<char>>, group: Seq<char>) -> nat
    decreases s.len(),
{
    if s.len() == 0 {
        0
    } else {
        stay_carriers(s.drop_last(), taken, group) + if stays(s.last(), taken) && in_group(
            s.last(),
            group,
        ) {
            1nat
        } else {
            0nat
        }
    }
}

/// The left levels that are down to fewer than two live members among what stays.
pub open spec fn dead_levels(s: Seq<ElementView>, moved: Set<Seq<char>>, editing: Seq<char>) -> Set<
    Seq<char>,
> {
    let taken = taken_out(s, moved, editing);
    Set::new(
        |g: Seq<char>|
            left_upto(s, moved, editing, s.len() as int).contains(g) && stay_carriers(s, taken, g)
                < 2,
    )
}

/// The patch of one survivor of a dead level.
pub open spec fn bury_step(taken: Set<Seq<char>>, dead: Set<Seq<char>>) -> spec_fn(ElementView) -> Option<
    ElementView,
> {
    |e: ElementView|
        if stays(e, taken) && shares(e, dead) {
            Some(peeled(e, dead))
        } else {
            None
        }
}

/// What taking `moved` out of the edited group changes: the part, cut loose of the edited
/// group and all around it, then every survivor of a level left with fewer than two live
/// members, without that level.
pub open spec fn leaving(s: Seq<ElementView>, moved: Set<Seq<char>>, editing: Seq<char>) -> Seq<
    ElementView,
> {
    s.filter_map(leave_step(moved, editing)) + s.filter_map(
        bury_step(taken_out(s, moved, editing), dead_levels(s, moved, editing)),
    )
}

// ------------------------------------------------------------------ the rules

/// The group a click on `element` should select, given the group currently being edited:
/// the outermost group with nothing entered, the outermost one strictly inside `editing`
/// otherwise, and nothing once no level is left inside it or the element is not in it.
pub fn selected_group_for<'a>(element: &'a DrawElement, editing: Option<&str>) -> (r: Option<
    &'a String,
>)
    ensures
        rv(r) == group_at(element@.group_ids, strv(editing)),
{
    let ids = &element.group_ids;
    match editing {
        None => {
            if ids.len() > 0 {
                assert(sv(ids@)[ids.len() - 1] == ids@[ids.len() - 1]@);
                Some(&ids[ids.len() - 1])
            } else {
                None
            }
        },
        Some(e) => {
            let e = e.to_owned();
            match position_of(ids, &e) {
                Some(k) => {
                    if k > 0 {
                        Some(&ids[k - 1])
                    } else {
                        None
                    }
                },
                None => None,
            }
        },
    }
}

/// Whether `element` belongs to `group`, at any depth.
pub fn is_in_group(element: &DrawElement, group: &str) -> (r: bool)
    ensures
        r == in_group(element@, group@),
{
    contains_id(&element.group_ids, &group.to_owned())
}

/// Whether `element` carries the group named by `group`.
pub fn carries_group(element: &DrawElement, group: &String) -> (r: bool)
    ensures
        r == in_group(element@, group@),
{
    contains_id(&element.group_ids, group)
}

/// Whether `group` is still a group: at least two live elements carry it.
pub fn is_live_group(elements: &[DrawElement], group: &str) -> (r: bool)
    ensures
        r == live_group(scene(elements@), group@),
{
    live_group_named(elements, &group.to_owned())
}

/// [`is_live_group`] for a group held as a `String`.
pub fn live_group_named(elements: &[DrawElement], group: &String) -> (r: bool)
    ensures
        r == live_group(scene(elements@), group@),
{
    let ghost s = scene(elements@);
    let mut n: usize = 0;
    let mut i: usize = 0;
    while i < elements.len()
        invariant
            i <= elements.len(),
            s == scene(elements@),
            n == if carriers(s.take(i as int), group@) >= 2 {
                2
            } else {
                carriers(s.take(i as int), group@)
            },
        decreases elements.len() - i,
    {
        proof {
            lemma_carriers_step(s, group@, i as int);
        }
        if !elements[i].is_deleted && carries_group(&elements[i], group) {
            if n < 2 {
                n = n + 1;
            }
        }
        i = i + 1;
    }
    assert(s.take(i as int) =~= s);
    n >= 2
}

/// The group directly around `group` on `element`, if any: the next id out in its
/// innermost-to-outermost list.
pub fn parent_group<'a>(element: &'a DrawElement, group: &str) -> (r: Option<&'a String>)
    ensures
        rv(r) == parent_of(element@.group_ids, group@),
{
    let ids = &element.group_ids;
    match position_of(ids, &group.to_owned()) {
        Some(k) => {
            if k + 1 < ids.len() {
                Some(&ids[k + 1])
            } else {
                None
            }
        },
        None => None,
    }
}

} // verus!

verus! {

/// Whether `element` carries one of the groups in `groups`.
pub(crate) fn shares_any(element: &DrawElement, groups: &Vec<String>) -> (r: bool)
    ensures
        r == shares(element@, idset(groups@)),
{
    let mut k: usize = 0;
    while k < element.group_ids.len()
        invariant
            k <= element.group_ids.len(),
            forall|j: int| 0 <= j < k ==> !idset(groups@).contains(#[trigger] element@.group_ids[j]),
        decreases element.group_ids.len() - k,
    {
        if contains_id(groups, &element.group_ids[k]) {
            assert(element@.group_ids[k as int] == element.group_ids@[k as int]@);
            assert(idset(groups@).contains(element@.group_ids[k as int]));
            return true;
        }
        assert(element@.group_ids[k as int] == element.group_ids@[k as int]@);
        k = k + 1;
    }
    false
}

/// The set of `ids`, each held once.
pub fn id_set(ids: Vec<String>) -> (r: Vec<String>)
    ensures
        distinct(r@),
        idset(r@) == idset(ids@),
{
    let mut out: Vec<String> = Vec::new();
    let mut i: usize = 0;
    while i < ids.len()
        invariant
            i <= ids.len(),
            distinct(out@),
            idset(out@) == idset(ids@.take(i as int)),
        decreases ids.len() - i,
    {
        let ghost before = idset(out@);
        add_id(&mut out, ids[i].clone());
        proof {
            assert forall|x: Seq<char>| idset(ids@.take(i + 1)).contains(x) == idset(ids@.take(i as int)).insert(ids@[i as int]@).contains(x) by {
                if idset(ids@.take(i + 1)).contains(x) {
                    let k = choose|k: int| 0 <= k < sv(ids@.take(i + 1)).len() && #[trigger] sv(ids@.take(i + 1))[k] == x;
                    if k < i {
                        assert(sv(ids@.take(i as int))[k] == x);
                    }
                }
                if idset(ids@.take(i as int)).contains(x) {
                    let k = choose|k: int| 0 <= k < sv(ids@.take(i as int)).len() && #[trigger] sv(ids@.take(i as int))[k] == x;
                    assert(sv(ids@.take(i + 1))[k] == x);
                }
                if x == ids@[i as int]@ {
                    assert(sv(ids@.take(i + 1))[i as int] == x);
                }
            }
            assert(idset(ids@.take(i + 1)) =~= idset(ids@.take(i as int)).insert(ids@[i as int]@));
        }
        i = i + 1;
    }
    assert(ids@.take(i as int) =~= ids@);
    out
}

/// Grows `ids` to cover every element of every group it touches, the groups being the
/// ones a click selects inside `editing` ([`selected_group_for`]).
pub fn expand_within(elements: &[DrawElement], ids: Vec<String>, editing: Option<&str>) -> (r: Vec<
    String,
>)
    ensures
        distinct(r@),
        idset(r@) == expanded(scene(elements@), idset(ids@), strv(editing)),
{
    let ghost s = scene(elements@);
    let ghost sel = idset(ids@);
    let mut out = id_set(ids);
    let mut groups: Vec<String> = Vec::new();
    let mut i: usize = 0;
    while i < elements.len()
        invariant
            i <= elements.len(),
            s == scene(elements@),
            idset(out@) == sel,
            distinct(out@),
            distinct(groups@),
            idset(groups@) == touched_upto(s, sel, strv(editing), i as int),
        decreases elements.len() - i,
    {
        let ghost before = idset(groups@);
        if contains_id(&out, &elements[i].id) {
            match selected_group_for(&elements[i], editing) {
                Some(g) => {
                    add_id(&mut groups, g.clone());
                    proof {
                        assert forall|x: Seq<char>| touched_upto(s, sel, strv(editing), i + 1).contains(x) == before.insert(g@).contains(x) by {
                            if touched_upto(s, sel, strv(editing), i + 1).contains(x) {
                                let k = choose|k: int| 0 <= k < i + 1 && sel.contains(s[k].id) && #[trigger] group_at(s[k].group_ids, strv(editing)) == Some(x);
                                if k < i {
                                    assert(touched_upto(s, sel, strv(editing), i as int).contains(x));
                                }
                            }
                            if before.contains(x) {
                                let k = choose|k: int| 0 <= k < i && sel.contains(s[k].id) && #[trigger] group_at(s[k].group_ids, strv(editing)) == Some(x);
                                assert(group_at(s[k].group_ids, strv(editing)) == Some(x));
                            }
                            if x == g@ {
                                assert(group_at(s[i as int].group_ids, strv(editing)) == Some(x));
                            }
                        }
                        assert(touched_upto(s, sel, strv(editing), i + 1) =~= before.insert(g@));
                    }
                },
                None => {
                    proof {
                        assert forall|x: Seq<char>| touched_upto(s, sel, strv(editing), i + 1).contains(x) == before.contains(x) by {
                            if touched_upto(s, sel, strv(editing), i + 1).contains(x) {
                                let k = choose|k: int| 0 <= k < i + 1 && sel.contains(s[k].id) && #[trigger] group_at(s[k].group_ids, strv(editing)) == Some(x);
                                if k < i {
                                    assert(touched_upto(s, sel, strv(editing), i as int).contains(x));
                                }
                            }
                            if before.contains(x) {
                                let k = choose|k: int| 0 <= k < i && sel.contains(s[k].id) && #[trigger] group_at(s[k].group_ids, strv(editing)) == Some(x);
                                assert(group_at(s[k].group_ids, strv(editing)) == Some(x));
                            }
                        }
                        assert(touched_upto(s, sel, strv(editing), i + 1) =~= before);
                    }
                },
            }
        } else {
            proof {
                assert forall|x: Seq<char>| touched_upto(s, sel, strv(editing), i + 1).contains(x) == before.contains(x) by {
                    if touched_upto(s, sel, strv(editing), i + 1).contains(x) {
                        let k = choose|k: int| 0 <= k < i + 1 && sel.contains(s[k].id) && #[trigger] group_at(s[k].group_ids, strv(editing)) == Some(x);
                        if k < i {
                            assert(touched_upto(s, sel, strv(editing), i as int).contains(x));
                        }
                    }
                    if before.contains(x) {
                        let k = choose|k: int| 0 <= k < i && sel.contains(s[k].id) && #[trigger] group_at(s[k].group_ids, strv(editing)) == Some(x);
                        assert(group_at(s[k].group_ids, strv(editing)) == Some(x));
                    }
                }
                assert(touched_upto(s, sel, strv(editing), i + 1) =~= before);
            }
        }
        i = i + 1;
    }
    let ghost touched = touched_groups(s, sel, strv(editing));
    assert(idset(groups@) == touched);
    if groups.len() == 0 {
        proof {
            assert forall|x: Seq<char>| !touched.contains(x) by {
                if touched.contains(x) {
                    assert(idset(groups@).contains(x));
                    let k = choose|k: int| 0 <= k < sv(groups@).len() && #[trigger] sv(groups@)[k] == x;
                }
            }
            assert(members_upto(s, touched, s.len() as int) =~= Set::empty());
            assert(expanded(s, sel, strv(editing)) =~= sel);
        }
        return out;
    }
    let mut j: usize = 0;
    while j < elements.len()
        invariant
            j <= elements.len(),
            s == scene(elements@),
            idset(groups@) == touched,
            distinct(out@),
            idset(out@) == sel.union(members_upto(s, touched, j as int)),
        decreases elements.len() - j,
    {
        let ghost before = idset(out@);
        if shares_any(&elements[j], &groups) {
            add_id(&mut out, elements[j].id.clone());
            proof {
                assert forall|x: Seq<char>| members_upto(s, touched, j + 1).contains(x) == members_upto(s, touched, j as int).insert(s[j as int].id).contains(x) by {
                    if members_upto(s, touched, j + 1).contains(x) {
                        let k = choose|k: int| 0 <= k < j + 1 && #[trigger] s[k].id == x && shares(s[k], touched);
                        if k < j {
                            assert(members_upto(s, touched, j as int).contains(x));
                        }
                    }
                    if members_upto(s, touched, j as int).contains(x) {
                        let k = choose|k: int| 0 <= k < j && #[trigger] s[k].id == x && shares(s[k], touched);
                        assert(s[k].id == x);
                    }
                    if x == s[j as int].id {
                        assert(s[j as int].id == x);
                    }
                }
                assert(members_upto(s, touched, j + 1) =~= members_upto(s, touched, j as int).insert(s[j as int].id));
                assert(idset(out@) =~= sel.union(members_upto(s, touched, j + 1)));
            }
        } else {
            proof {
                assert forall|x: Seq<char>| members_upto(s, touched, j + 1).contains(x) == members_upto(s, touched, j as int).contains(x) by {
                    if members_upto(s, touched, j + 1).contains(x) {
                        let k = choose|k: int| 0 <= k < j + 1 && #[trigger] s[k].id == x && shares(s[k], touched);
                        if k < j {
                            assert(members_upto(s, touched, j as int).contains(x));
                        }
                    }
                    if members_upto(s, touched, j as int).contains(x) {
                        let k = choose|k: int| 0 <= k < j && #[trigger] s[k].id == x && shares(s[k], touched);
                        assert(s[k].id == x);
                    }
                }
                assert(members_upto(s, touched, j + 1) =~= members_upto(s, touched, j as int));
            }
        }
        j = j + 1;
    }
    out
}

} // verus!

verus! {

/// Keeps of `v` what `keep` holds.
pub fn retain_ids(v: Vec<String>, keep: &Vec<String>) -> (r: Vec<String>)
    requires
        distinct(v@),
    ensures
        distinct(r@),
        idset(r@) == idset(v@).intersect(idset(keep@)),
{
    let mut out: Vec<String> = Vec::new();
    let mut i: usize = 0;
    while i < v.len()
        invariant
            i <= v.len(),
            distinct(out@),
            idset(out@) == collected(i as int, |k: int| idset(keep@).contains(v@[k]@), |k: int| v@[k]@),
        decreases v.len() - i,
    {
        proof {
            lemma_collected_step(i as int, |k: int| idset(keep@).contains(v@[k]@), |k: int| v@[k]@);
        }
        if contains_id(keep, &v[i]) {
            add_id(&mut out, v[i].clone());
        }
        i = i + 1;
    }
    proof {
        let c = collected(v.len() as int, |k: int| idset(keep@).contains(v@[k]@), |k: int| v@[k]@);
        assert forall|x: Seq<char>| c.contains(x) == idset(v@).intersect(idset(keep@)).contains(x) by {
            if idset(v@).contains(x) {
                let k = choose|k: int| 0 <= k < sv(v@).len() && #[trigger] sv(v@)[k] == x;
                assert(v@[k]@ == x);
            }
            if c.contains(x) {
                let k = choose|k: int| 0 <= k < v.len() && idset(keep@).contains(v@[k]@) && v@[k]@ == x;
                assert(sv(v@)[k] == x);
            }
        }
        assert(c =~= idset(v@).intersect(idset(keep@)));
    }
    out
}

/// `ids` and the label of every shape among them.
pub fn with_labels(elements: &[DrawElement], ids: &Vec<String>) -> (r: Vec<String>)
    ensures
        distinct(r@),
        idset(r@) == idset(ids@).union(labels_of(scene(elements@), idset(ids@))),
{
    let ghost s = scene(elements@);
    let ghost sel = idset(ids@);
    let ghost p = |i: int| sel.contains(s[i].id) && s[i].bound_text_id is Some;
    let ghost f = |i: int| s[i].bound_text_id.unwrap();
    let mut out = id_set(copy_ids(ids));
    let mut i: usize = 0;
    while i < elements.len()
        invariant
            i <= elements.len(),
            s == scene(elements@),
            sel == idset(ids@),
            p == (|i: int| sel.contains(s[i].id) && s[i].bound_text_id is Some),
            f == (|i: int| s[i].bound_text_id.unwrap()),
            distinct(out@),
            idset(out@) == sel.union(collected(i as int, p, f)),
        decreases elements.len() - i,
    {
        proof {
            lemma_collected_step(i as int, p, f);
        }
        if contains_id(ids, &elements[i].id) {
            match &elements[i].bound_text_id {
                Some(label) => {
                    add_id(&mut out, label.clone());
                    assert(idset(out@) =~= sel.union(collected(i + 1, p, f)));
                },
                None => {},
            }
        }
        i = i + 1;
    }
    out
}

/// Whether `editing` can stay the group being edited once `selected` is what is held:
/// something is held, all of it is inside the group, and the group is still a group.
pub fn keeps_editing(elements: &[DrawElement], selected: &Vec<String>, editing: &str) -> (r: bool)
    ensures
        r == keeps(scene(elements@), idset(selected@), editing@),
{
    let ghost s = scene(elements@);
    let ghost sel = idset(selected@);
    let mut any = false;
    let mut all = true;
    let mut i: usize = 0;
    while i < elements.len()
        invariant
            i <= elements.len(),
            s == scene(elements@),
            sel == idset(selected@),
            any == exists|k: int| 0 <= k < i && #[trigger] held(s[k], sel),
            all == forall|k: int| 0 <= k < i && #[trigger] held(s[k], sel) ==> in_group(s[k], editing@),
        decreases elements.len() - i,
    {
        if !elements[i].is_deleted && contains_id(selected, &elements[i].id) {
            assert(held(s[i as int], sel));
            any = true;
            if !is_in_group(&elements[i], editing) {
                all = false;
            }
        }
        i = i + 1;
    }
    any && all && is_live_group(elements, editing)
}

/// Grows a set of ids to cover every element of every group it touches, with no group
/// entered.
pub fn expand_to_groups_among(elements: &[DrawElement], ids: Vec<String>) -> (r: Vec<String>)
    ensures
        distinct(r@),
        idset(r@) == expanded(scene(elements@), idset(ids@), None),
{
    expand_within(elements, ids, None)
}

/// [`expand_to_groups_among`] over a whole board.
pub fn expand_to_groups(elements: &[DrawElement], ids: Vec<String>) -> (r: Vec<String>)
    ensures
        distinct(r@),
        idset(r@) == expanded(scene(elements@), idset(ids@), None),
{
    expand_to_groups_among(elements, ids)
}

/// What moving, resizing or turning the selection carries: the unlocked part of it,
/// grown back to the groups that part belongs to, and nothing that is not selected.
pub fn carried_by(elements: &[DrawElement], selected: &Vec<String>, editing: Option<&str>) -> (r: Vec<
    String,
>)
    ensures
        distinct(r@),
        idset(r@) == expanded(
            scene(elements@),
            unlocked_of(scene(elements@), idset(selected@)),
            strv(editing),
        ).intersect(idset(selected@)),
{
    let ghost s = scene(elements@);
    let ghost sel = idset(selected@);
    let ghost p = |i: int| sel.contains(s[i].id) && !s[i].locked;
    let ghost f = |i: int| s[i].id;
    let mut unlocked: Vec<String> = Vec::new();
    let mut i: usize = 0;
    while i < elements.len()
        invariant
            i <= elements.len(),
            s == scene(elements@),
            sel == idset(selected@),
            p == (|i: int| sel.contains(s[i].id) && !s[i].locked),
            f == (|i: int| s[i].id),
            distinct(unlocked@),
            idset(unlocked@) == collected(i as int, p, f),
        decreases elements.len() - i,
    {
        proof {
            lemma_collected_step(i as int, p, f);
        }
        if contains_id(selected, &elements[i].id) && !elements[i].locked() {
            add_id(&mut unlocked, elements[i].id.clone());
        }
        i = i + 1;
    }
    let carried = expand_within(elements, unlocked, editing);
    retain_ids(carried, selected)
}

} // verus!

verus! {

/// Whether the selection is exactly one group and nothing else. A label is carried by its
/// shape and settles nothing.
pub fn is_single_group(elements: &[DrawElement], ids: &Vec<String>, editing: Option<&str>) -> (r:
    bool)
    ensures
        r == single_group(scene(elements@), idset(ids@), strv(editing)),
{
    let ghost s = scene(elements@);
    let ghost sel = idset(ids@);
    let ghost ed = strv(editing);
    let mut group: Option<&String> = None;
    let mut i: usize = 0;
    while i < elements.len()
        invariant
            i <= elements.len(),
            s == scene(elements@),
            sel == idset(ids@),
            ed == strv(editing),
            group is None <==> forall|k: int| 0 <= k < i ==> !#[trigger] picked(s[k], sel),
            group is Some ==> forall|k: int|
                0 <= k < i && #[trigger] picked(s[k], sel) ==> group_at(s[k].group_ids, ed)
                    == rv(group),
        decreases elements.len() - i,
    {
        let element = &elements[i];
        if contains_id(ids, &element.id) && !element.is_deleted && element.container_id.is_none() {
            assert(picked(s[i as int], sel));
            match selected_group_for(element, editing) {
                None => {
                    proof {
                        if single_group(s, sel, ed) {
                            let g = choose|g: Seq<char>|
                                {
                                    &&& exists|i: int| 0 <= i < s.len() && #[trigger] picked(s[i], sel)
                                    &&& forall|i: int|
                                        0 <= i < s.len() && #[trigger] picked(s[i], sel) ==> group_at(s[i].group_ids, ed) == Some(g)
                                    &&& #[trigger] live_group(s, g)
                                    &&& forall|j: int|
                                        0 <= j < s.len() && shape(s[j]) && in_group(s[j], g) ==> sel.contains(#[trigger] s[j].id)
                                };
                            assert(group_at(s[i as int].group_ids, ed) == Some(g));
                        }
                    }
                    return false;
                },
                Some(current) => {
                    match group {
                        None => {
                            group = Some(current);
                        },
                        Some(existing) => {
                            if !same_text(existing, current) {
                                proof {
                                    let k = choose|k: int| 0 <= k < i && #[trigger] picked(s[k], sel);
                                    if single_group(s, sel, ed) {
                                        let g = choose|g: Seq<char>|
                                            {
                                                &&& exists|i: int| 0 <= i < s.len() && #[trigger] picked(s[i], sel)
                                                &&& forall|i: int|
                                                    0 <= i < s.len() && #[trigger] picked(s[i], sel) ==> group_at(s[i].group_ids, ed) == Some(g)
                                                &&& #[trigger] live_group(s, g)
                                                &&& forall|j: int|
                                                    0 <= j < s.len() && shape(s[j]) && in_group(s[j], g) ==> sel.contains(#[trigger] s[j].id)
                                            };
                                        assert(group_at(s[i as int].group_ids, ed) == Some(g));
                                        assert(group_at(s[k].group_ids, ed) == Some(g));
                                    }
                                }
                                return false;
                            }
                        },
                    }
                },
            }
        }
        i = i + 1;
    }
    let g = match group {
        None => {
            proof {
                if single_group(s, sel, ed) {
                    let g = choose|g: Seq<char>|
                        {
                            &&& exists|i: int| 0 <= i < s.len() && #[trigger] picked(s[i], sel)
                            &&& forall|i: int|
                                0 <= i < s.len() && #[trigger] picked(s[i], sel) ==> group_at(s[i].group_ids, ed) == Some(g)
                            &&& #[trigger] live_group(s, g)
                            &&& forall|j: int|
                                0 <= j < s.len() && shape(s[j]) && in_group(s[j], g) ==> sel.contains(#[trigger] s[j].id)
                        };
                    let k = choose|k: int| 0 <= k < s.len() && #[trigger] picked(s[k], sel);
                }
            }
            return false;
        },
        Some(g) => g,
    };
    let live = live_group_named(elements, g);
    let mut all = true;
    let mut j: usize = 0;
    while j < elements.len()
        invariant
            j <= elements.len(),
            s == scene(elements@),
            sel == idset(ids@),
            all == forall|k: int| 0 <= k < j && shape(s[k]) && in_group(s[k], g@) ==> sel.contains(#[trigger] s[k].id),
        decreases elements.len() - j,
    {
        let element = &elements[j];
        assert(s[j as int] == elements@[j as int]@);
        if !element.is_deleted && element.container_id.is_none() && carries_group(element, g) {
            if !contains_id(ids, &element.id) {
                assert(!sel.contains(s[j as int].id));
                all = false;
            } else {
                assert(sel.contains(s[j as int].id));
            }
        }
        j = j + 1;
    }
    proof {
        let k = choose|k: int| 0 <= k < s.len() && #[trigger] picked(s[k], sel);
        if live && all {
            assert(live_group(s, g@));
        }
        if single_group(s, sel, ed) {
            let h = choose|h: Seq<char>|
                {
                    &&& exists|i: int| 0 <= i < s.len() && #[trigger] picked(s[i], sel)
                    &&& forall|i: int|
                        0 <= i < s.len() && #[trigger] picked(s[i], sel) ==> group_at(s[i].group_ids, ed) == Some(h)
                    &&& #[trigger] live_group(s, h)
                    &&& forall|j: int|
                        0 <= j < s.len() && shape(s[j]) && in_group(s[j], h) ==> sel.contains(#[trigger] s[j].id)
                };
            assert(group_at(s[k].group_ids, ed) == Some(h));
            assert(h == g@);
        }
    }
    live && all
}

} // verus!

verus! {

/// Adds `group_id` as a new level around `ids` (and their labels): just inside the group
/// being edited, or outermost at the top level. Nothing for a selection that is already
/// exactly one group.
pub fn group_patches(
    elements: &[DrawElement],
    ids: &Vec<String>,
    group_id: &str,
    editing: Option<&str>,
) -> (r: Vec<DrawElement>)
    ensures
        scene(r@) == if single_group(scene(elements@), idset(ids@), strv(editing)) {
            Seq::<ElementView>::empty()
        } else {
            grouping(scene(elements@), idset(ids@), group_id@, strv(editing))
        },
{
    if is_single_group(elements, ids, editing) {
        let r: Vec<DrawElement> = Vec::new();
        assert(scene(r@) =~= Seq::<ElementView>::empty());
        return r;
    }
    let ghost s = scene(elements@);
    let wanted = with_labels(elements, ids);
    let ghost f = group_step(idset(wanted@), group_id@, strv(editing));
    assert(f == group_step(idset(ids@).union(labels_of(s, idset(ids@))), group_id@, strv(editing)));
    let gid = group_id.to_owned();
    let mut out: Vec<DrawElement> = Vec::new();
    let mut i: usize = 0;
    while i < elements.len()
        invariant
            i <= elements.len(),
            s == scene(elements@),
            f == group_step(idset(wanted@), group_id@, strv(editing)),
            gid@ == group_id@,
            scene(out@) == s.take(i as int).filter_map(f),
        decreases elements.len() - i,
    {
        proof {
            lemma_filter_map_step(s, f, i as int);
        }
        let element = &elements[i];
        if contains_id(&wanted, &element.id) && !element.is_deleted {
            let mut next = element.duplicate();
            let at = match editing {
                Some(e) => match position_of(&element.group_ids, &e.to_owned()) {
                    Some(k) => k,
                    None => element.group_ids.len(),
                },
                None => element.group_ids.len(),
            };
            let ghost before = next.group_ids@;
            next.group_ids.insert(at, gid.clone());
            assert(sv(next.group_ids@) =~= sv(before).insert(at as int, group_id@));
            assert(next@ == wrapped(element@, group_id@, strv(editing)));
            out.push(next);
            assert(scene(out@) =~= s.take(i + 1).filter_map(f));
        } else {
            assert(scene(out@) =~= s.take(i + 1).filter_map(f));
        }
        i = i + 1;
    }
    assert(s.take(i as int) =~= s);
    out
}

/// `ids` without the groups in `doomed`, in the same order.
fn drop_groups(ids: &Vec<String>, doomed: &Vec<String>) -> (r: Vec<String>)
    ensures
        sv(r@) == sv(ids@).filter(spared(idset(doomed@))),
{
    let ghost s = sv(ids@);
    let ghost p = spared(idset(doomed@));
    let mut out: Vec<String> = Vec::new();
    let mut i: usize = 0;
    while i < ids.len()
        invariant
            i <= ids.len(),
            s == sv(ids@),
            p == spared(idset(doomed@)),
            sv(out@) == s.take(i as int).filter(p),
        decreases ids.len() - i,
    {
        proof {
            lemma_filter_step(s, p, i as int);
        }
        if !contains_id(doomed, &ids[i]) {
            out.push(ids[i].clone());
            assert(sv(out@) =~= s.take(i + 1).filter(p));
        }
        i = i + 1;
    }
    assert(s.take(i as int) =~= s);
    out
}

/// Removes one level from each selected element: the level a click on it selects, if
/// that is still a group. Ungrouping twice peels twice.
pub fn ungroup_patches(elements: &[DrawElement], ids: &Vec<String>, editing: Option<&str>) -> (r:
    Vec<DrawElement>)
    ensures
        scene(r@) == ungrouping(scene(elements@), doomed_groups(scene(elements@), idset(ids@), strv(editing))),
{
    let ghost s = scene(elements@);
    let ghost sel = idset(ids@);
    let ghost ed = strv(editing);
    let ghost p = |i: int|
        held(s[i], sel) && group_at(s[i].group_ids, ed) is Some && live_group(
            s,
            group_at(s[i].group_ids, ed).unwrap(),
        );
    let ghost f = |i: int| group_at(s[i].group_ids, ed).unwrap();
    let mut doomed: Vec<String> = Vec::new();
    let mut i: usize = 0;
    while i < elements.len()
        invariant
            i <= elements.len(),
            s == scene(elements@),
            sel == idset(ids@),
            ed == strv(editing),
            p == (|i: int|
                held(s[i], sel) && group_at(s[i].group_ids, ed) is Some && live_group(
                    s,
                    group_at(s[i].group_ids, ed).unwrap(),
                )),
            f == (|i: int| group_at(s[i].group_ids, ed).unwrap()),
            distinct(doomed@),
            idset(doomed@) == collected(i as int, p, f),
        decreases elements.len() - i,
    {
        proof {
            lemma_collected_step(i as int, p, f);
        }
        let element = &elements[i];
        if !element.is_deleted && contains_id(ids, &element.id) {
            match selected_group_for(element, editing) {
                Some(g) => {
                    if live_group_named(elements, g) {
                        add_id(&mut doomed, g.clone());
                    }
                },
                None => {},
            }
        }
        i = i + 1;
    }
    let ghost dset = idset(doomed@);
    let ghost u = ungroup_step(dset);
    let mut out: Vec<DrawElement> = Vec::new();
    let mut j: usize = 0;
    while j < elements.len()
        invariant
            j <= elements.len(),
            s == scene(elements@),
            dset == idset(doomed@),
            u == ungroup_step(dset),
            scene(out@) == s.take(j as int).filter_map(u),
        decreases elements.len() - j,
    {
        proof {
            lemma_filter_map_step(s, u, j as int);
        }
        let element = &elements[j];
        if !element.is_deleted && shares_any(element, &doomed) {
            let mut next = element.duplicate();
            next.group_ids = drop_groups(&element.group_ids, &doomed);
            assert(next@ == peeled(element@, dset));
            out.push(next);
            assert(scene(out@) =~= s.take(j + 1).filter_map(u));
        } else {
            assert(scene(out@) =~= s.take(j + 1).filter_map(u));
        }
        j = j + 1;
    }
    assert(s.take(j as int) =~= s);
    out
}

} // verus!

verus! {

/// The first live member of `group`, and, when `need_touch`, the first `touchable` allows.
fn first_carrier(elements: &[DrawElement], group: &String, touchable: &[bool], need_touch: bool) -> (r:
    Option<usize>)
    requires
        !need_touch || touchable.len() == elements.len(),
    ensures
        match r {
            Some(k) => k < elements.len() && first_such(
                elements.len() as int,
                carrier_at(scene(elements@), group@, if need_touch { touchable@ } else { Seq::empty() }, need_touch),
            ) == Some(k as int),
            None => first_such(
                elements.len() as int,
                carrier_at(scene(elements@), group@, if need_touch { touchable@ } else { Seq::empty() }, need_touch),
            ) == None::<int>,
        },
{
    let ghost s = scene(elements@);
    let ghost p = carrier_at(s, group@, if need_touch { touchable@ } else { Seq::empty() }, need_touch);
    let mut i: usize = 0;
    while i < elements.len()
        invariant
            i <= elements.len(),
            !need_touch || touchable.len() == elements.len(),
            s == scene(elements@),
            p == carrier_at(s, group@, if need_touch { touchable@ } else { Seq::empty() }, need_touch),
            forall|j: int| 0 <= j < i ==> !#[trigger] p(j),
        decreases elements.len() - i,
    {
        if !elements[i].is_deleted && carries_group(&elements[i], group) && (!need_touch
            || touchable[i]) {
            proof {
                lemma_first_found(elements.len() as int, p, i as int);
            }
            return Some(i);
        }
        assert(!p(i as int));
        i = i + 1;
    }
    proof {
        lemma_first_such(elements.len() as int, p);
        if first_such(elements.len() as int, p) is Some {
            let k = first_such(elements.len() as int, p).unwrap();
            assert(!p(k));
        }
    }
    None
}

/// Where deleting inside `editing` leaves you: the level still being edited, and what is
/// held there. `elements` is the board after the deletion; `touchable[i]` says whether
/// `elements[i]` may be picked up (not locked, not held by a peer).
pub fn after_delete_within(elements: &[DrawElement], editing: &str, touchable: &[bool]) -> (r: (
    Option<String>,
    Vec<String>,
))
    requires
        touchable.len() == elements.len(),
    ensures
        distinct(r.1@),
        (ov(r.0), idset(r.1@)) == after_delete(scene(elements@), editing@, touchable@),
{
    let ghost s = scene(elements@);
    let ed = editing.to_owned();
    let any = match first_carrier(elements, &ed, touchable, false) {
        None => {
            let v: Vec<String> = Vec::new();
            assert(idset(v@) =~= Set::empty());
            return (None, v);
        },
        Some(any) => any,
    };
    let level: Option<String> = if live_group_named(elements, &ed) {
        Some(ed.clone())
    } else {
        match parent_group(&elements[any], editing) {
            Some(p) => {
                if live_group_named(elements, p) {
                    Some(p.clone())
                } else {
                    None
                }
            },
            None => None,
        }
    };
    assert(ov(level) == level_after(s, editing@));
    let held = match &level {
        Some(l) => first_carrier(elements, l, touchable, true),
        None => None,
    };
    match held {
        Some(h) => {
            let mut v: Vec<String> = Vec::new();
            v.push(elements[h].id.clone());
            assert(sv(v@) =~= seq![s[h as int].id]);
            proof {
                lemma_idset_single(v@);
            }
            (level, v)
        },
        None => {
            match first_carrier(elements, &ed, touchable, true) {
                Some(k) => {
                    let mut start: Vec<String> = Vec::new();
                    start.push(elements[k].id.clone());
                    assert(sv(start@) =~= seq![s[k as int].id]);
                    proof {
                        lemma_idset_single(start@);
                    }
                    let grown = expand_within(elements, start, None);
                    (None, touchable_among(elements, touchable, &grown))
                },
                None => {
                    let v: Vec<String> = Vec::new();
                    assert(idset(v@) =~= Set::empty());
                    (None, v)
                },
            }
        },
    }
}

} // verus!

verus! {

/// The ids of `ids` that name live elements `touchable` accepts.
fn touchable_among(elements: &[DrawElement], touchable: &[bool], ids: &Vec<String>) -> (r: Vec<String>)
    requires
        touchable.len() == elements.len(),
    ensures
        distinct(r@),
        idset(r@) == held_among(scene(elements@), touchable@, idset(ids@)),
{
    let ghost s = scene(elements@);
    let ghost t = idset(ids@);
    let ghost p = |i: int| t.contains(s[i].id) && !s[i].is_deleted && touchable@[i];
    let ghost f = |i: int| s[i].id;
    let mut out: Vec<String> = Vec::new();
    let mut i: usize = 0;
    while i < elements.len()
        invariant
            i <= elements.len(),
            touchable.len() == elements.len(),
            s == scene(elements@),
            t == idset(ids@),
            p == (|i: int| t.contains(s[i].id) && !s[i].is_deleted && touchable@[i]),
            f == (|i: int| s[i].id),
            distinct(out@),
            idset(out@) == collected(i as int, p, f),
        decreases elements.len() - i,
    {
        proof {
            lemma_collected_step(i as int, p, f);
        }
        assert(s[i as int] == elements@[i as int]@);
        if !elements[i].is_deleted && touchable[i] && contains_id(ids, &elements[i].id) {
            add_id(&mut out, elements[i].id.clone());
        }
        i = i + 1;
    }
    out
}

/// How many elements staying behind, their ids outside `taken`, carry `group`.
fn count_staying(elements: &[DrawElement], taken: &Vec<String>, group: &String) -> (r: usize)
    ensures
        r == if stay_carriers(scene(elements@), idset(taken@), group@) >= 2 {
            2
        } else {
            stay_carriers(scene(elements@), idset(taken@), group@)
        },
{
    let ghost s = scene(elements@);
    let ghost t = idset(taken@);
    let mut n: usize = 0;
    let mut i: usize = 0;
    while i < elements.len()
        invariant
            i <= elements.len(),
            s == scene(elements@),
            t == idset(taken@),
            n == if stay_carriers(s.take(i as int), t, group@) >= 2 {
                2
            } else {
                stay_carriers(s.take(i as int), t, group@)
            },
        decreases elements.len() - i,
    {
        assert(s.take(i + 1).drop_last() =~= s.take(i as int));
        if !elements[i].is_deleted && !contains_id(taken, &elements[i].id) && carries_group(
            &elements[i],
            group,
        ) {
            if n < 2 {
                n = n + 1;
            }
        }
        i = i + 1;
    }
    assert(s.take(i as int) =~= s);
    n
}

/// Part of the edited group taken out of it: each element of `moved` inside `editing`
/// loses `editing` and every group around it, keeping the groups inside; and each group it
/// left that is down to fewer than two live members stops being a group on whoever still
/// carries it. Returns the elements that change, unstamped.
pub fn leave_edited_group(elements: &[DrawElement], moved: &Vec<String>, editing: &str) -> (r: Vec<
    DrawElement,
>)
    ensures
        scene(r@) == leaving(scene(elements@), idset(moved@), editing@),
{
    let ghost s = scene(elements@);
    let ghost m = idset(moved@);
    let ghost e = editing@;
    let ghost step = leave_step(m, e);
    let ghost tp = |i: int| leaves(s[i], m, e);
    let ghost tf = |i: int| s[i].id;
    let ed = editing.to_owned();
    let mut left: Vec<String> = Vec::new();
    let mut taken: Vec<String> = Vec::new();
    let mut out: Vec<DrawElement> = Vec::new();
    let mut i: usize = 0;
    while i < elements.len()
        invariant
            i <= elements.len(),
            s == scene(elements@),
            m == idset(moved@),
            e == editing@,
            ed@ == editing@,
            step == leave_step(m, e),
            tp == (|i: int| leaves(s[i], m, e)),
            tf == (|i: int| s[i].id),
            distinct(left@),
            distinct(taken@),
            idset(left@) == left_upto(s, m, e, i as int),
            idset(taken@) == collected(i as int, tp, tf),
            scene(out@) == s.take(i as int).filter_map(step),
        decreases elements.len() - i,
    {
        proof {
            lemma_filter_map_step(s, step, i as int);
            lemma_collected_step(i as int, tp, tf);
        }
        let element = &elements[i];
        let ghost before = idset(left@);
        if contains_id(moved, &element.id) {
            match position_of(&element.group_ids, &ed) {
                Some(at) => {
                    assert(s[i as int].group_ids[at as int] == e);
                    assert(m.contains(s[i as int].id));
                    assert(leaves(s[i as int], m, e));
                    let ghost outer = s[i as int].group_ids.skip(at as int);
                    let mut k: usize = at;
                    while k < element.group_ids.len()
                        invariant
                            at <= k <= element.group_ids.len(),
                            element == &elements[i as int],
                            s == scene(elements@),
                            i < elements.len(),
                            outer == s[i as int].group_ids.skip(at as int),
                            distinct(left@),
                            idset(left@) == before.union(
                                Set::new(|g: Seq<char>| exists|q: int| at <= q < k && #[trigger] s[i as int].group_ids[q] == g),
                            ),
                        decreases element.group_ids.len() - k,
                    {
                        let ghost prev = idset(left@);
                        add_id(&mut left, element.group_ids[k].clone());
                        proof {
                            assert(s[i as int].group_ids[k as int] == element.group_ids@[k as int]@);
                            assert forall|g: Seq<char>| idset(left@).contains(g) == before.union(
                                Set::new(|g: Seq<char>| exists|q: int| at <= q < k + 1 && #[trigger] s[i as int].group_ids[q] == g),
                            ).contains(g) by {
                                if exists|q: int| at <= q < k + 1 && #[trigger] s[i as int].group_ids[q] == g {
                                    let q = choose|q: int| at <= q < k + 1 && #[trigger] s[i as int].group_ids[q] == g;
                                    if q < k {
                                        assert(exists|q: int| at <= q < k && #[trigger] s[i as int].group_ids[q] == g);
                                    }
                                }
                                if exists|q: int| at <= q < k && #[trigger] s[i as int].group_ids[q] == g {
                                    let q = choose|q: int| at <= q < k && #[trigger] s[i as int].group_ids[q] == g;
                                    assert(exists|q: int| at <= q < k + 1 && #[trigger] s[i as int].group_ids[q] == g);
                                }
                            }
                            assert(idset(left@) =~= before.union(
                                Set::new(|g: Seq<char>| exists|q: int| at <= q < k + 1 && #[trigger] s[i as int].group_ids[q] == g),
                            ));
                        }
                        k = k + 1;
                    }
                    proof {
                        assert forall|g: Seq<char>| left_upto(s, m, e, i + 1).contains(g) == idset(left@).contains(g) by {
                            assert(edit_index(s[i as int], e) == at);
                            if outer.contains(g) {
                                let q = choose|q: int| 0 <= q < outer.len() && outer[q] == g;
                                assert(s[i as int].group_ids[at + q] == g);
                            }
                            if exists|q: int| at <= q < k && #[trigger] s[i as int].group_ids[q] == g {
                                let q = choose|q: int| at <= q < k && #[trigger] s[i as int].group_ids[q] == g;
                                assert(outer[q - at] == g);
                                assert(outer.contains(g));
                            }
                            if left_upto(s, m, e, i + 1).contains(g) {
                                let j = choose|j: int|
                                    0 <= j < i + 1 && leaves(s[j], m, e) && #[trigger] s[j].group_ids.skip(edit_index(s[j], e)).contains(g);
                                if j < i {
                                    assert(left_upto(s, m, e, i as int).contains(g));
                                }
                            }
                            if before.contains(g) {
                                let j = choose|j: int|
                                    0 <= j < i && leaves(s[j], m, e) && #[trigger] s[j].group_ids.skip(edit_index(s[j], e)).contains(g);
                                assert(left_upto(s, m, e, i + 1).contains(g));
                            }
                        }
                        assert(left_upto(s, m, e, i + 1) =~= idset(left@));
                    }
                    let mut next = element.duplicate();
                    next.group_ids.truncate(at);
                    assert(sv(next.group_ids@) =~= element@.group_ids.take(at as int));
                    assert(next@ == cut(element@, e));
                    out.push(next);
                    assert(scene(out@) =~= s.take(i + 1).filter_map(step));
                    add_id(&mut taken, element.id.clone());
                },
                None => {
                    proof {
                        assert(!leaves(s[i as int], m, e));
                        assert forall|g: Seq<char>| left_upto(s, m, e, i + 1).contains(g) == before.contains(g) by {
                            if left_upto(s, m, e, i + 1).contains(g) {
                                let j = choose|j: int|
                                    0 <= j < i + 1 && leaves(s[j], m, e) && #[trigger] s[j].group_ids.skip(edit_index(s[j], e)).contains(g);
                                assert(left_upto(s, m, e, i as int).contains(g));
                            }
                            if before.contains(g) {
                                let j = choose|j: int|
                                    0 <= j < i && leaves(s[j], m, e) && #[trigger] s[j].group_ids.skip(edit_index(s[j], e)).contains(g);
                                assert(left_upto(s, m, e, i + 1).contains(g));
                            }
                        }
                        assert(left_upto(s, m, e, i + 1) =~= before);
                    }
                    assert(scene(out@) =~= s.take(i + 1).filter_map(step));
                },
            }
        } else {
            proof {
                assert(!leaves(s[i as int], m, e));
                assert forall|g: Seq<char>| left_upto(s, m, e, i + 1).contains(g) == before.contains(g) by {
                    if left_upto(s, m, e, i + 1).contains(g) {
                        let j = choose|j: int|
                            0 <= j < i + 1 && leaves(s[j], m, e) && #[trigger] s[j].group_ids.skip(edit_index(s[j], e)).contains(g);
                        assert(left_upto(s, m, e, i as int).contains(g));
                    }
                    if before.contains(g) {
                        let j = choose|j: int|
                            0 <= j < i && leaves(s[j], m, e) && #[trigger] s[j].group_ids.skip(edit_index(s[j], e)).contains(g);
                        assert(left_upto(s, m, e, i + 1).contains(g));
                    }
                }
                assert(left_upto(s, m, e, i + 1) =~= before);
            }
            assert(scene(out@) =~= s.take(i + 1).filter_map(step));
        }
        i = i + 1;
    }
    assert(s.take(i as int) =~= s);
    let ghost t = idset(taken@);
    assert(t == taken_out(s, m, e));
    let ghost part = scene(out@);
    // The left levels with fewer than two live members among what stays.
    let mut dead: Vec<String> = Vec::new();
    let ghost lp = |k: int| stay_carriers(s, t, left@[k]@) < 2;
    let ghost lf = |k: int| left@[k]@;
    let mut k: usize = 0;
    while k < left.len()
        invariant
            k <= left.len(),
            s == scene(elements@),
            t == idset(taken@),
            lp == (|k: int| stay_carriers(s, t, left@[k]@) < 2),
            lf == (|k: int| left@[k]@),
            distinct(dead@),
            idset(dead@) == collected(k as int, lp, lf),
        decreases left.len() - k,
    {
        proof {
            lemma_collected_step(k as int, lp, lf);
        }
        if count_staying(elements, &taken, &left[k]) < 2 {
            add_id(&mut dead, left[k].clone());
        }
        k = k + 1;
    }
    let ghost d = idset(dead@);
    proof {
        assert forall|g: Seq<char>| d.contains(g) == dead_levels(s, m, e).contains(g) by {
            if d.contains(g) {
                let q = choose|q: int| 0 <= q < left.len() && lp(q) && #[trigger] lf(q) == g;
                assert(sv(left@)[q] == g);
            }
            if dead_levels(s, m, e).contains(g) {
                assert(idset(left@).contains(g));
                let q = choose|q: int| 0 <= q < sv(left@).len() && #[trigger] sv(left@)[q] == g;
                assert(lf(q) == g);
            }
        }
        assert(d =~= dead_levels(s, m, e));
    }
    let ghost bury = bury_step(t, d);
    let mut j: usize = 0;
    while j < elements.len()
        invariant
            j <= elements.len(),
            s == scene(elements@),
            t == idset(taken@),
            d == idset(dead@),
            bury == bury_step(t, d),
            scene(out@) == part + s.take(j as int).filter_map(bury),
        decreases elements.len() - j,
    {
        proof {
            lemma_filter_map_step(s, bury, j as int);
        }
        let element = &elements[j];
        if !element.is_deleted && !contains_id(&taken, &element.id) && shares_any(element, &dead) {
            let mut next = element.duplicate();
            next.group_ids = drop_groups(&element.group_ids, &dead);
            assert(next@ == peeled(element@, d));
            assert(s[j as int] == element@);
            assert(stays(s[j as int], t));
            assert(bury(s[j as int]) == Some(next@));
            let ghost prev = scene(out@);
            out.push(next);
            assert(scene(out@) =~= prev.push(next@));
            assert(scene(out@) =~= part + s.take(j + 1).filter_map(bury));
        } else {
            assert(scene(out@) =~= part + s.take(j + 1).filter_map(bury));
        }
        j = j + 1;
    }
    assert(s.take(j as int) =~= s);
    out
}

} // verus!

verus! {

/// Keeping what a filter keeps everywhere keeps the whole sequence.
proof fn lemma_filter_keeps_all<A>(a: Seq<A>, p: spec_fn(A) -> bool)
    requires
        forall|i: int| 0 <= i < a.len() ==> p(#[trigger] a[i]),
    ensures
        a.filter(p) == a,
    decreases a.len(),
{
    reveal(Seq::filter);
    if a.len() > 0 {
        lemma_filter_keeps_all(a.drop_last(), p);
        assert(a.drop_last().push(a.last()) =~= a);
    }
}

/// Taking a fresh level off the list it was put into gives the list back.
proof fn lemma_insert_then_drop(g: Seq<Seq<char>>, k: int, gid: Seq<char>)
    requires
        0 <= k <= g.len(),
        !g.contains(gid),
    ensures
        g.insert(k, gid).filter(spared(set![gid])) == g,
{
    let p = spared(set![gid]);
    let a = g.take(k);
    let b = g.skip(k);
    assert(g.insert(k, gid) =~= a + (seq![gid] + b));
    Seq::filter_distributes_over_add(a, seq![gid] + b, p);
    Seq::filter_distributes_over_add(seq![gid], b, p);
    reveal(Seq::filter);
    assert(seq![gid].drop_last() =~= Seq::<Seq<char>>::empty());
    assert(Seq::<Seq<char>>::empty().filter(p) == Seq::<Seq<char>>::empty());
    assert(seq![gid].last() == gid);
    assert(!p(gid));
    assert(seq![gid].filter(p) =~= Seq::<Seq<char>>::empty());
    assert forall|i: int| 0 <= i < a.len() implies p(#[trigger] a[i]) by {
        assert(a[i] == g[i]);
    }
    assert forall|i: int| 0 <= i < b.len() implies p(#[trigger] b[i]) by {
        assert(b[i] == g[i + k]);
    }
    lemma_filter_keeps_all(a, p);
    lemma_filter_keeps_all(b, p);
    assert(a + b =~= g);
}

/// A click on an element just put in the fresh group `gid` selects `gid`: the new level is
/// the one in view, whether it was wrapped round everything or nested inside the group
/// being edited.
pub proof fn lemma_new_level_selected(e: ElementView, gid: Seq<char>, editing: Option<Seq<char>>)
    requires
        !e.group_ids.contains(gid),
        match editing {
            Some(ed) => e.group_ids.contains(ed),
            None => true,
        },
    ensures
        group_at(wrapped(e, gid, editing).group_ids, editing) == Some(gid),
{
    let g = e.group_ids;
    match editing {
        None => {},
        Some(ed) => {
            g.index_of_first_ensures(ed);
            let k = g.index_of_first(ed).unwrap();
            let h = g.insert(k, gid);
            assert(h[k] == gid);
            assert(h[k + 1] == ed);
            assert(gid != ed);
            h.index_of_first_ensures(ed);
            let m = h.index_of_first(ed).unwrap();
            if m < k {
                assert(h[m] == g[m]);
            }
            if m > k + 1 {
                assert(h[k + 1] == ed);
            }
            assert(m == k + 1);
        },
    }
}

/// Ungrouping right after grouping gives the elements back: taking the fresh level `gid`
/// off the patches that grouping wrote leaves exactly the elements grouping took, as they
/// were.
pub proof fn lemma_ungroup_undoes_group(
    s: Seq<ElementView>,
    ids: Set<Seq<char>>,
    gid: Seq<char>,
    editing: Option<Seq<char>>,
)
    requires
        forall|i: int| 0 <= i < s.len() ==> !(#[trigger] s[i].group_ids).contains(gid),
    ensures
        ungrouping(grouping(s, ids, gid, editing), set![gid]) == s.filter(
            |e: ElementView| ids.union(labels_of(s, ids)).contains(e.id) && !e.is_deleted,
        ),
{
    lemma_group_then_peel(s, ids.union(labels_of(s, ids)), gid, editing);
}

/// Peeling `gid` off what `group_step` wrote gives back the elements it took.
proof fn lemma_group_then_peel(
    s: Seq<ElementView>,
    wanted: Set<Seq<char>>,
    gid: Seq<char>,
    editing: Option<Seq<char>>,
)
    requires
        forall|i: int| 0 <= i < s.len() ==> !(#[trigger] s[i].group_ids).contains(gid),
    ensures
        s.filter_map(group_step(wanted, gid, editing)).filter_map(ungroup_step(set![gid]))
            == s.filter(|e: ElementView| wanted.contains(e.id) && !e.is_deleted),
    decreases s.len(),
{
    reveal(Seq::filter);
    let f = group_step(wanted, gid, editing);
    let u = ungroup_step(set![gid]);
    let p = |e: ElementView| wanted.contains(e.id) && !e.is_deleted;
    if s.len() > 0 {
        let rest = s.drop_last();
        assert forall|i: int| 0 <= i < rest.len() implies !(#[trigger] rest[i].group_ids).contains(gid) by {
            assert(rest[i] == s[i]);
        }
        lemma_group_then_peel(rest, wanted, gid, editing);
        let e = s.last();
        assert(!s[s.len() - 1].group_ids.contains(gid));
        if p(e) {
            let w = wrapped(e, gid, editing);
            let k = wrap_at(e.group_ids, editing);
            assert(0 <= k <= e.group_ids.len()) by {
                match editing {
                    Some(ed) => {
                        e.group_ids.index_of_first_ensures(ed);
                    },
                    None => {},
                }
            }
            assert(w.group_ids[k] == gid);
            assert(shares(w, set![gid]));
            lemma_insert_then_drop(e.group_ids, k, gid);
            assert(peeled(w, set![gid]) =~= e);
            let a = rest.filter_map(f);
            assert(s.filter_map(f) == a + seq![w]);
            assert((a + seq![w]).drop_last() =~= a);
            assert((a + seq![w]).last() == w);
            assert((a + seq![w]).filter_map(u) == a.filter_map(u) + seq![e]);
            assert(a.filter_map(u) + seq![e] =~= a.filter_map(u).push(e));
        } else {
            assert(s.filter_map(f) == rest.filter_map(f));
        }
    }
}

} // verus!

verus! {

/// A double click descends exactly one level per press: with nothing entered a click
/// takes the outermost group, inside any level it takes the one directly inside it, and
/// inside the innermost it takes nothing, for an element whose groups are each listed
/// once.
pub proof fn lemma_descends_one_level(g: Seq<Seq<char>>)
    requires
        g.no_duplicates(),
    ensures
        g.len() > 0 ==> group_at(g, None) == Some(g[g.len() - 1]),
        g.len() == 0 ==> group_at(g, None) is None,
        forall|k: int| 0 < k < g.len() ==> group_at(g, Some(#[trigger] g[k])) == Some(g[k - 1]),
        g.len() > 0 ==> group_at(g, Some(g[0])) is None,
{
    assert forall|k: int| 0 <= k < g.len() implies g.index_of_first(#[trigger] g[k]) == Some(k) by {
        g.index_of_first_ensures(g[k]);
        let m = g.index_of_first(g[k]).unwrap();
        if m != k {
            assert(g[m] == g[k]);
        }
    }
}

} // verus!

verus! {

/// The board once `patches` are applied: each element replaced by the first patch with
/// its id.
pub open spec fn patched(s: Seq<ElementView>, patches: Seq<ElementView>) -> Seq<ElementView> {
    Seq::new(
        s.len(),
        |i: int|
            match first_such(patches.len() as int, |k: int| patches[k].id == s[i].id) {
                Some(k) => patches[k],
                None => s[i],
            },
    )
}

/// A board holds each id once.
pub open spec fn unique_ids(s: Seq<ElementView>) -> bool {
    forall|i: int, j: int| 0 <= i < s.len() && 0 <= j < s.len() && i != j ==> #[trigger] s[i].id != #[trigger] s[j].id
}

/// The board with the grouping patches of `wanted` written in place.
pub open spec fn grouped_board(
    s: Seq<ElementView>,
    wanted: Set<Seq<char>>,
    gid: Seq<char>,
    editing: Option<Seq<char>>,
) -> Seq<ElementView> {
    Seq::new(
        s.len(),
        |i: int|
            match group_step(wanted, gid, editing)(s[i]) {
                Some(w) => w,
                None => s[i],
            },
    )
}

/// A value `filter_map` produces for some element is among what it produces.
proof fn lemma_filter_map_has<A, B>(s: Seq<A>, f: spec_fn(A) -> Option<B>, i: int)
    requires
        0 <= i < s.len(),
        f(s[i]) is Some,
    ensures
        s.filter_map(f).contains(f(s[i]).unwrap()),
    decreases s.len(),
{
    let rest = s.drop_last();
    if i == s.len() - 1 {
        assert(s.filter_map(f) == rest.filter_map(f) + seq![f(s[i]).unwrap()]);
        assert(s.filter_map(f)[rest.filter_map(f).len() as int] == f(s[i]).unwrap());
    } else {
        assert(rest[i] == s[i]);
        lemma_filter_map_has(rest, f, i);
        let k = choose|k: int| 0 <= k < rest.filter_map(f).len() && rest.filter_map(f)[k] == f(s[i]).unwrap();
        match f(s.last()) {
            Some(b) => {
                assert(s.filter_map(f) == rest.filter_map(f) + seq![b]);
                assert(s.filter_map(f)[k] == f(s[i]).unwrap());
            },
            None => {},
        }
    }
}

/// Grouping patches keep ids.
proof fn lemma_group_step_keeps_id(wanted: Set<Seq<char>>, gid: Seq<char>, editing: Option<Seq<char>>, e: ElementView)
    ensures
        group_step(wanted, gid, editing)(e) is Some ==> group_step(wanted, gid, editing)(e).unwrap().id == e.id,
{
}

/// Applying grouping patches by id writes each one over the element it came from, on a
/// board that holds each id once.
pub proof fn lemma_apply_grouping(
    s: Seq<ElementView>,
    wanted: Set<Seq<char>>,
    gid: Seq<char>,
    editing: Option<Seq<char>>,
)
    requires
        unique_ids(s),
    ensures
        patched(s, s.filter_map(group_step(wanted, gid, editing))) == grouped_board(s, wanted, gid, editing),
{
    let f = group_step(wanted, gid, editing);
    let p = s.filter_map(f);
    assert forall|k: int| 0 <= k < p.len() implies exists|j: int|
        0 <= j < s.len() && #[trigger] f(s[j]) == Some(#[trigger] p[k]) by {
        s.lemma_filter_map_contains(f, p[k]);
        let t = choose|t: ElementView| #[trigger] s.contains(t) && f(t) == Some(p[k]);
        let j = choose|j: int| 0 <= j < s.len() && s[j] == t;
        assert(f(s[j]) == Some(p[k]));
    }
    assert forall|i: int| 0 <= i < s.len() implies #[trigger] patched(s, p)[i] == grouped_board(
        s,
        wanted,
        gid,
        editing,
    )[i] by {
        let q = |k: int| p[k].id == s[i].id;
        lemma_first_such(p.len() as int, q);
        match f(s[i]) {
            Some(w) => {
                lemma_filter_map_has(s, f, i);
                let k1 = choose|k1: int| 0 <= k1 < p.len() && p[k1] == w;
                assert(q(k1));
                let k0 = first_such(p.len() as int, q).unwrap();
                let j = choose|j: int| 0 <= j < s.len() && #[trigger] f(s[j]) == Some(p[k0]);
                lemma_group_step_keeps_id(wanted, gid, editing, s[j]);
                assert(s[j].id == s[i].id);
                assert(j == i);
            },
            None => {
                if first_such(p.len() as int, q) is Some {
                    let k0 = first_such(p.len() as int, q).unwrap();
                    let j = choose|j: int| 0 <= j < s.len() && #[trigger] f(s[j]) == Some(p[k0]);
                    lemma_group_step_keeps_id(wanted, gid, editing, s[j]);
                    assert(s[j].id == s[i].id);
                    assert(j == i);
                }
            },
        }
    }
    assert(patched(s, p) =~= grouped_board(s, wanted, gid, editing));
}

} // verus!

verus! {

/// Two live elements carrying a group make it a group.
proof fn lemma_two_carriers(s: Seq<ElementView>, g: Seq<char>, a: int, b: int)
    requires
        0 <= a < s.len(),
        0 <= b < s.len(),
        a != b,
        carries(s[a], g),
        carries(s[b], g),
    ensures
        live_group(s, g),
    decreases s.len(),
{
    let n = s.len() as int;
    let rest = s.drop_last();
    if a < n - 1 && b < n - 1 {
        assert(rest[a] == s[a] && rest[b] == s[b]);
        lemma_two_carriers(rest, g, a, b);
    } else {
        let other = if a == n - 1 {
            b
        } else {
            a
        };
        assert(rest[other] == s[other]);
        lemma_one_carrier(rest, g, other);
        assert(carries(s.last(), g));
    }
}

/// One live element carrying a group counts.
proof fn lemma_one_carrier(s: Seq<ElementView>, g: Seq<char>, a: int)
    requires
        0 <= a < s.len(),
        carries(s[a], g),
    ensures
        carriers(s, g) >= 1,
    decreases s.len(),
{
    let rest = s.drop_last();
    if a < s.len() - 1 {
        assert(rest[a] == s[a]);
        lemma_one_carrier(rest, g, a);
    }
}

/// Taking a fresh group off the board it was written into gives back the elements it was
/// written on, as they were.
proof fn lemma_ungroup_board(s: Seq<ElementView>, wanted: Set<Seq<char>>, gid: Seq<char>, editing: Option<Seq<char>>)
    requires
        forall|i: int| 0 <= i < s.len() ==> !(#[trigger] s[i].group_ids).contains(gid),
    ensures
        ungrouping(grouped_board(s, wanted, gid, editing), set![gid]) == s.filter(
            |e: ElementView| wanted.contains(e.id) && !e.is_deleted,
        ),
    decreases s.len(),
{
    reveal(Seq::filter);
    let b = grouped_board(s, wanted, gid, editing);
    let u = ungroup_step(set![gid]);
    let p = |e: ElementView| wanted.contains(e.id) && !e.is_deleted;
    if s.len() > 0 {
        let rest = s.drop_last();
        assert forall|i: int| 0 <= i < rest.len() implies !(#[trigger] rest[i].group_ids).contains(gid) by {
            assert(rest[i] == s[i]);
        }
        lemma_ungroup_board(rest, wanted, gid, editing);
        assert(b.drop_last() =~= grouped_board(rest, wanted, gid, editing));
        let e = s.last();
        assert(!s[s.len() - 1].group_ids.contains(gid));
        assert(b.last() == b[s.len() - 1]);
        if p(e) {
            let k = wrap_at(e.group_ids, editing);
            assert(0 <= k <= e.group_ids.len()) by {
                match editing {
                    Some(ed) => {
                        e.group_ids.index_of_first_ensures(ed);
                    },
                    None => {},
                }
            }
            let w = wrapped(e, gid, editing);
            assert(b.last() == w);
            assert(w.group_ids[k] == gid);
            assert(shares(w, set![gid]));
            lemma_insert_then_drop(e.group_ids, k, gid);
            assert(peeled(w, set![gid]) =~= e);
            assert(u(b.last()) == Some(e));
        } else {
            assert(b.last() == e);
            assert(!shares(e, set![gid])) by {
                if shares(e, set![gid]) {
                    let m = choose|m: int| 0 <= m < e.group_ids.len() && set![gid].contains(#[trigger] e.group_ids[m]);
                    assert(e.group_ids.contains(gid));
                }
            }
            assert(u(b.last()) is None);
        }
    }
}

/// On the grouped board the selection is exactly the new group: every shape it holds is
/// selected through it, it has two live members, and every shape in it is held.
proof fn lemma_grouped_board_single(s: Seq<ElementView>, ids: Set<Seq<char>>, gid: Seq<char>, a: int, c: int)
    requires
        forall|i: int| 0 <= i < s.len() ==> !(#[trigger] s[i].group_ids).contains(gid),
        forall|i: int, j: int|
            0 <= i < s.len() && 0 <= j < s.len() && ids.contains(s[i].id) && #[trigger] s[i].bound_text_id == Some(
                #[trigger] s[j].id,
            ) ==> s[j].container_id is Some,
        0 <= a < s.len(),
        0 <= c < s.len(),
        a != c,
        picked(s[a], ids),
        picked(s[c], ids),
    ensures
        single_group(grouped_board(s, ids.union(labels_of(s, ids)), gid, None), ids, None),
        doomed_groups(grouped_board(s, ids.union(labels_of(s, ids)), gid, None), ids, None) == set![gid],
{
    let w = ids.union(labels_of(s, ids));
    let b = grouped_board(s, w, gid, None);
    let n = s.len() as int;
    assert forall|i: int| 0 <= i < n && held(s[i], ids) implies #[trigger] b[i] == wrapped(s[i], gid, None) by {}
    assert forall|i: int| 0 <= i < n implies (#[trigger] b[i]).id == s[i].id && b[i].is_deleted == s[i].is_deleted
        && b[i].container_id == s[i].container_id by {}
    assert forall|i: int| 0 <= i < n && held(s[i], ids) implies group_at((#[trigger] b[i]).group_ids, None) == Some(
        gid,
    ) by {
        assert(b[i].group_ids == s[i].group_ids.push(gid)) by {
            assert(s[i].group_ids.insert(s[i].group_ids.len() as int, gid) =~= s[i].group_ids.push(gid));
        }
    }
    assert(b[a].group_ids.contains(gid)) by {
        assert(b[a].group_ids == s[a].group_ids.insert(s[a].group_ids.len() as int, gid));
        assert(b[a].group_ids[s[a].group_ids.len() as int] == gid);
    }
    assert(b[c].group_ids.contains(gid)) by {
        assert(b[c].group_ids == s[c].group_ids.insert(s[c].group_ids.len() as int, gid));
        assert(b[c].group_ids[s[c].group_ids.len() as int] == gid);
    }
    lemma_two_carriers(b, gid, a, c);
    assert(picked(b[a], ids));
    assert forall|j: int| 0 <= j < n && shape(b[j]) && in_group(b[j], gid) implies ids.contains(
        #[trigger] b[j].id,
    ) by {
        if !(w.contains(s[j].id) && !s[j].is_deleted) {
            assert(b[j] == s[j]);
            assert(s[j].group_ids.contains(gid));
        }
        if !ids.contains(s[j].id) {
            assert(labels_of(s, ids).contains(s[j].id));
            let i = choose|i: int|
                0 <= i < n && (ids.contains(s[i].id) && s[i].bound_text_id is Some) && #[trigger] s[i].bound_text_id.unwrap()
                    == s[j].id;
            assert(s[i].bound_text_id == Some(s[j].id));
            assert(s[j].container_id is Some);
        }
    }
    assert(single_group(b, ids, None));
    let dp = |i: int|
        held(b[i], ids) && group_at(b[i].group_ids, None) is Some && live_group(
            b,
            group_at(b[i].group_ids, None).unwrap(),
        );
    let df = |i: int| group_at(b[i].group_ids, None).unwrap();
    assert forall|x: Seq<char>| doomed_groups(b, ids, None).contains(x) == set![gid].contains(x) by {
        if doomed_groups(b, ids, None).contains(x) {
            let i = choose|i: int| 0 <= i < n && dp(i) && #[trigger] df(i) == x;
            assert(held(s[i], ids));
        }
        if x == gid {
            assert(held(s[a], ids));
            assert(dp(a) && df(a) == gid);
        }
    }
    assert(doomed_groups(b, ids, None) =~= set![gid]);
}

/// Ctrl+G undoes itself: grouping a loose selection of two shapes or more under a fresh
/// id leaves the selection exactly that group, so the next press ungroups; and that
/// ungrouping gives every element the grouping took back as it was. On a board that holds
/// each id once and whose selected shapes' labels are labels.
pub proof fn lemma_group_toggle_undoes_itself(s: Seq<ElementView>, ids: Set<Seq<char>>, gid: Seq<char>, a: int, c: int)
    requires
        unique_ids(s),
        forall|i: int| 0 <= i < s.len() ==> !(#[trigger] s[i].group_ids).contains(gid),
        forall|i: int, j: int|
            0 <= i < s.len() && 0 <= j < s.len() && ids.contains(s[i].id) && #[trigger] s[i].bound_text_id == Some(
                #[trigger] s[j].id,
            ) ==> s[j].container_id is Some,
        0 <= a < s.len(),
        0 <= c < s.len(),
        a != c,
        picked(s[a], ids),
        picked(s[c], ids),
        !single_group(s, ids, None),
    ensures
        ({
            let patches = if single_group(s, ids, None) {
                Seq::<ElementView>::empty()
            } else {
                grouping(s, ids, gid, None)
            };
            let board = patched(s, patches);
            &&& single_group(board, ids, None)
            &&& ungrouping(board, doomed_groups(board, ids, None)) == s.filter(
                |e: ElementView| ids.union(labels_of(s, ids)).contains(e.id) && !e.is_deleted,
            )
        }),
{
    let w = ids.union(labels_of(s, ids));
    lemma_apply_grouping(s, w, gid, None);
    lemma_grouped_board_single(s, ids, gid, a, c);
    lemma_ungroup_board(s, w, gid, None);
}

} // verus!

verus! {

/// Deleting inside a group never holds what may not be held: every id held names a live
/// element that `touch` accepts, and a level still edited is still a group.
pub proof fn lemma_delete_holds_touchable(s: Seq<ElementView>, editing: Seq<char>, touch: Seq<bool>)
    requires
        touch.len() == s.len(),
    ensures
        forall|x: Seq<char>|
            #[trigger] after_delete(s, editing, touch).1.contains(x) ==> exists|i: int|
                0 <= i < s.len() && s[i].id == x && !s[i].is_deleted && touch[i],
        after_delete(s, editing, touch).0 is Some ==> live_group(s, after_delete(s, editing, touch).0.unwrap()),
{
    let n = s.len() as int;
    lemma_first_such(n, carrier_at(s, editing, Seq::empty(), false));
    lemma_first_such(n, carrier_at(s, editing, touch, true));
    if let Some(l) = level_after(s, editing) {
        lemma_first_such(n, carrier_at(s, l, touch, true));
    }
    assert forall|x: Seq<char>| #[trigger] after_delete(s, editing, touch).1.contains(x) implies exists|i: int|
        0 <= i < s.len() && s[i].id == x && !s[i].is_deleted && touch[i] by {
        let first_level = match level_after(s, editing) {
            Some(l) => first_such(n, carrier_at(s, l, touch, true)),
            None => None,
        };
        match first_level {
            Some(h) => {
                assert(x == s[h].id);
            },
            None => {
                let k = first_such(n, carrier_at(s, editing, touch, true)).unwrap();
                let g = expanded(s, set![s[k].id], None);
                let i = choose|i: int|
                    0 <= i < n && (g.contains(s[i].id) && !s[i].is_deleted && touch[i]) && #[trigger] s[i].id == x;
                assert(s[i].id == x);
            },
        }
    }
}

} // verus!

verus! {

/// On the grouped board, ungrouping the selection takes off exactly the new level.
proof fn lemma_grouped_board_doomed(s: Seq<ElementView>, ids: Set<Seq<char>>, gid: Seq<char>, a: int, c: int, h: int)
    requires
        forall|i: int| 0 <= i < s.len() ==> !(#[trigger] s[i].group_ids).contains(gid),
        0 <= a < s.len(),
        0 <= c < s.len(),
        0 <= h < s.len(),
        a != c,
        ids.union(labels_of(s, ids)).contains(s[a].id) && !s[a].is_deleted,
        ids.union(labels_of(s, ids)).contains(s[c].id) && !s[c].is_deleted,
        held(s[h], ids),
    ensures
        doomed_groups(grouped_board(s, ids.union(labels_of(s, ids)), gid, None), ids, None) == set![gid],
{
    let w = ids.union(labels_of(s, ids));
    let b = grouped_board(s, w, gid, None);
    let n = s.len() as int;
    assert forall|i: int| 0 <= i < n && w.contains(s[i].id) && !s[i].is_deleted implies (#[trigger] b[i]).group_ids
        == s[i].group_ids.push(gid) by {
        assert(s[i].group_ids.insert(s[i].group_ids.len() as int, gid) =~= s[i].group_ids.push(gid));
    }
    assert forall|i: int| 0 <= i < n implies (#[trigger] b[i]).id == s[i].id && b[i].is_deleted == s[i].is_deleted by {}
    assert(b[a].group_ids[s[a].group_ids.len() as int] == gid);
    assert(b[c].group_ids[s[c].group_ids.len() as int] == gid);
    lemma_two_carriers(b, gid, a, c);
    let dp = |i: int|
        held(b[i], ids) && group_at(b[i].group_ids, None) is Some && live_group(
            b,
            group_at(b[i].group_ids, None).unwrap(),
        );
    let df = |i: int| group_at(b[i].group_ids, None).unwrap();
    assert forall|x: Seq<char>| doomed_groups(b, ids, None).contains(x) == set![gid].contains(x) by {
        if doomed_groups(b, ids, None).contains(x) {
            let i = choose|i: int| 0 <= i < n && dp(i) && #[trigger] df(i) == x;
            assert(held(s[i], ids));
            assert(b[i].group_ids == s[i].group_ids.push(gid));
        }
        if x == gid {
            assert(b[h].group_ids == s[h].group_ids.push(gid));
            assert(dp(h) && df(h) == gid);
        }
    }
    assert(doomed_groups(b, ids, None) =~= set![gid]);
}

/// Ungrouping undoes grouping on the board: once the grouping patches of a fresh id are
/// applied by id, ungrouping the same selection patches exactly what grouping did and
/// gives each its groups back. For a board holding each id once, with something selected
/// live and at least two elements grouped (so the new group is a group).
pub proof fn lemma_ungroup_board_undoes_group(s: Seq<ElementView>, ids: Set<Seq<char>>, gid: Seq<char>, a: int, c: int, h: int)
    requires
        unique_ids(s),
        forall|i: int| 0 <= i < s.len() ==> !(#[trigger] s[i].group_ids).contains(gid),
        !single_group(s, ids, None),
        0 <= a < s.len(),
        0 <= c < s.len(),
        0 <= h < s.len(),
        a != c,
        ids.union(labels_of(s, ids)).contains(s[a].id) && !s[a].is_deleted,
        ids.union(labels_of(s, ids)).contains(s[c].id) && !s[c].is_deleted,
        held(s[h], ids),
    ensures
        ({
            let patches = if single_group(s, ids, None) {
                Seq::<ElementView>::empty()
            } else {
                grouping(s, ids, gid, None)
            };
            let board = patched(s, patches);
            ungrouping(board, doomed_groups(board, ids, None)) == s.filter(
                |e: ElementView| ids.union(labels_of(s, ids)).contains(e.id) && !e.is_deleted,
            )
        }),
{
    let w = ids.union(labels_of(s, ids));
    lemma_apply_grouping(s, w, gid, None);
    lemma_grouped_board_doomed(s, ids, gid, a, c, h);
    lemma_ungroup_board(s, w, gid, None);
}

} // verus!
