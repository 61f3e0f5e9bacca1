//! The four z-order commands, and the one gathering that grouping does.
//!
//! The stack is moved a group at a time: stepping forward passes a whole group, never
//! lands between its members, and inside an entered group nothing leaves it.

use vstd::prelude::*;
use crate::element::{
    is_text, copy_ids, distinct, idset, scene, same_text, sv, strv, contains_id, DrawElement, ElementView,
};
use crate::group::{
    first_such, group_at, in_group, last_such, lemma_first_found, lemma_first_such,
    lemma_last_found, lemma_last_such, labels_of, is_in_group, carries_group, selected_group_for,
    with_labels,
};

verus! {

/// The z-order commands.
#[derive(Clone, Copy, Debug, PartialEq, Eq, Structural)]
pub enum ZOrderMode {
    Front,
    Back,
    Forward,
    Backward,
}

// ------------------------------------------------------------------ the model

/// The name of a z-order command.
pub open spec fn zorder_name(mode: ZOrderMode) -> Seq<char> {
    match mode {
        ZOrderMode::Front => "front"@,
        ZOrderMode::Back => "back"@,
        ZOrderMode::Forward => "forward"@,
        ZOrderMode::Backward => "backward"@,
    }
}

/// The z-order command a name stands for.
pub open spec fn zorder_named(value: Seq<char>) -> Option<ZOrderMode> {
    if value == "front"@ {
        Some(ZOrderMode::Front)
    } else if value == "back"@ {
        Some(ZOrderMode::Back)
    } else if value == "forward"@ {
        Some(ZOrderMode::Forward)
    } else if value == "backward"@ {
        Some(ZOrderMode::Backward)
    } else {
        None
    }
}

/// Picks the elements whose ids are in `ids`.
pub open spec fn in_ids(s: Seq<ElementView>, ids: Set<Seq<char>>) -> spec_fn(int) -> bool {
    |i: int| ids.contains(s[i].id)
}

/// Picks the members of `group`, at any depth.
pub open spec fn in_grp(s: Seq<ElementView>, group: Seq<char>) -> spec_fn(int) -> bool {
    |i: int| in_group(s[i], group)
}

/// Picks the element with id `id`.
pub open spec fn has_id(s: Seq<ElementView>, id: Seq<char>) -> spec_fn(int) -> bool {
    |i: int| s[i].id == id
}

/// Picks what a step may land on: anything, or inside an entered group only its members.
pub open spec fn in_scope(s: Seq<ElementView>, editing: Option<Seq<char>>) -> spec_fn(int) -> bool {
    |i: int|
        match editing {
            None => true,
            Some(g) => in_group(s[i], g),
        }
}

/// What a forward step may land on: something in scope above `boundary`.
pub open spec fn in_scope_after(s: Seq<ElementView>, editing: Option<Seq<char>>, boundary: int) -> spec_fn(
    int,
) -> bool {
    |i: int|
        boundary < i && match editing {
            None => true,
            Some(g) => in_group(s[i], g),
        }
}

/// The first and last index of what `p` picks among the first `n`.
pub open spec fn span_of(n: int, p: spec_fn(int) -> bool) -> Option<(int, int)> {
    match first_such(n, p) {
        Some(a) => match last_such(n, p) {
            Some(b) => Some((a, b)),
            None => None,
        },
        None => None,
    }
}

/// The element a label is tied to: its container, or else its label.
pub open spec fn partner_id(e: ElementView) -> Option<Seq<char>> {
    if e.container_id is Some {
        e.container_id
    } else {
        e.bound_text_id
    }
}

/// `at`, or the far side of `e`'s label (or of the shape it labels) if that lies beyond:
/// the two are one unit to step over.
pub open spec fn label_reach(s: Seq<ElementView>, e: ElementView, at: int, forward: bool) -> int {
    match partner_id(e) {
        Some(id) => match first_such(s.len() as int, has_id(s, id)) {
            Some(other) => if forward {
                if other > at {
                    other
                } else {
                    at
                }
            } else {
                if other < at {
                    other
                } else {
                    at
                }
            },
            None => at,
        },
        None => at,
    }
}

/// Where the element at `boundary` steps to: past the next element in scope, or past the
/// whole unit that element belongs to (the level a click on it selects); a sibling on the
/// very same level inside the entered group is a unit of its own.
pub open spec fn target(s: Seq<ElementView>, boundary: int, editing: Option<Seq<char>>, forward: bool) -> Option<
    int,
> {
    let candidate = if forward {
        first_such(s.len() as int, in_scope_after(s, editing, boundary))
    } else {
        last_such(boundary, in_scope(s, editing))
    };
    match candidate {
        None => None,
        Some(c) => {
            let next = s[c];
            let sibling = editing is Some && s[boundary].group_ids == next.group_ids;
            let group = if sibling {
                None
            } else {
                group_at(next.group_ids, editing)
            };
            match group {
                None => Some(label_reach(s, next, c, forward)),
                Some(g) => if forward {
                    last_such(s.len() as int, in_grp(s, g))
                } else {
                    first_such(s.len() as int, in_grp(s, g))
                },
            }
        },
    }
}

/// Whether an element is being moved.
pub open spec fn moving(moved: Set<Seq<char>>) -> spec_fn(ElementView) -> bool {
    |e: ElementView| moved.contains(e.id)
}

/// Whether an element stays.
pub open spec fn staying(moved: Set<Seq<char>>) -> spec_fn(ElementView) -> bool {
    |e: ElementView| !moved.contains(e.id)
}

/// What of `moved` lies within `lo..=hi`, stacked at its top (or bottom), each side
/// keeping its own order; nothing outside the range is touched.
pub open spec fn to_end_seq(s: Seq<ElementView>, moved: Set<Seq<char>>, lo: int, hi: int, top: bool) -> Seq<
    ElementView,
> {
    let range = s.subrange(lo, hi + 1);
    let inside = range.filter(moving(moved));
    let displaced = range.filter(staying(moved));
    s.subrange(0, lo) + if top {
        displaced + inside
    } else {
        inside + displaced
    } + s.subrange(hi + 1, s.len() as int)
}

/// The contiguous runs of moved elements among the first `n`, in board order.
pub open spec fn runs_upto(s: Seq<ElementView>, moved: Set<Seq<char>>, n: int) -> Seq<(int, int)>
    decreases n,
{
    if n <= 0 {
        Seq::empty()
    } else {
        let r = runs_upto(s, moved, n - 1);
        if !moved.contains(s[n - 1].id) {
            r
        } else if r.len() > 0 && r.last().1 + 1 == n - 1 {
            r.update(r.len() - 1, (r.last().0, n - 1))
        } else {
            r.push((n - 1, n - 1))
        }
    }
}

/// The run `lead..=trail` moved up to just past `target`.
pub open spec fn rot_fwd(s: Seq<ElementView>, lead: int, trail: int, target: int) -> Seq<ElementView> {
    s.subrange(0, lead) + s.subrange(trail + 1, target + 1) + s.subrange(lead, trail + 1) + s.subrange(
        target + 1,
        s.len() as int,
    )
}

/// The run `lead..=trail` moved down to `target`.
pub open spec fn rot_back(s: Seq<ElementView>, lead: int, trail: int, target: int) -> Seq<ElementView> {
    s.subrange(0, target) + s.subrange(lead, trail + 1) + s.subrange(target, lead) + s.subrange(
        trail + 1,
        s.len() as int,
    )
}

/// One run changing places with the unit beyond it.
pub open spec fn apply_run(s: Seq<ElementView>, run: (int, int), editing: Option<Seq<char>>, forward: bool) -> Seq<
    ElementView,
> {
    let (lead, trail) = run;
    let boundary = if forward {
        trail
    } else {
        lead
    };
    match target(s, boundary, editing, forward) {
        Some(t) => if forward && t > trail {
            rot_fwd(s, lead, trail, t)
        } else if !forward && t < lead {
            rot_back(s, lead, trail, t)
        } else {
            s
        },
        None => s,
    }
}

/// The runs applied one after another.
pub open spec fn fold_runs(
    s: Seq<ElementView>,
    runs: Seq<(int, int)>,
    editing: Option<Seq<char>>,
    forward: bool,
) -> Seq<ElementView>
    decreases runs.len(),
{
    if runs.len() == 0 {
        s
    } else {
        apply_run(fold_runs(s, runs.drop_last(), editing, forward), runs.last(), editing, forward)
    }
}

/// Each contiguous run of `moved` changes places with the unit beyond it, the run nearest
/// the end it is heading for first.
pub open spec fn step_seq(s: Seq<ElementView>, moved: Set<Seq<char>>, editing: Option<Seq<char>>, forward: bool) -> Seq<
    ElementView,
> {
    let runs = runs_upto(s, moved, s.len() as int);
    fold_runs(
        s,
        if forward {
            runs.reverse()
        } else {
            runs
        },
        editing,
        forward,
    )
}

/// The entered group confines a move only when everything selected is inside it.
pub open spec fn confined(s: Seq<ElementView>, ids: Set<Seq<char>>, editing: Option<Seq<char>>) -> Option<
    Seq<char>,
> {
    match editing {
        Some(g) => if forall|i: int| 0 <= i < s.len() && ids.contains(#[trigger] s[i].id) ==> in_group(s[i], g) {
            Some(g)
        } else {
            None
        },
        None => None,
    }
}

/// The stack after moving `ids` (their labels with them) by `mode`.
pub open spec fn reorder(s: Seq<ElementView>, ids: Set<Seq<char>>, mode: ZOrderMode, editing: Option<Seq<char>>) -> Seq<
    ElementView,
> {
    let moved = ids.union(labels_of(s, ids));
    match span_of(s.len() as int, in_ids(s, moved)) {
        None => s,
        Some((a, b)) => {
            let ed = confined(s, ids, editing);
            let ends = match ed {
                Some(g) => match span_of(s.len() as int, in_grp(s, g)) {
                    Some(x) => x,
                    None => (0, s.len() - 1),
                },
                None => (0, s.len() - 1),
            };
            let lo = label_reach(s, s[ends.0], ends.0, false);
            let hi = label_reach(s, s[ends.1], ends.1, true);
            match mode {
                ZOrderMode::Front => to_end_seq(s, moved, a, hi, true),
                ZOrderMode::Back => to_end_seq(s, moved, lo, b, false),
                ZOrderMode::Forward => step_seq(s, moved, ed, true),
                ZOrderMode::Backward => step_seq(s, moved, ed, false),
            }
        },
    }
}

/// A new group's members gathered directly under the topmost of them, in their order.
pub open spec fn gathered(s: Seq<ElementView>, members: Set<Seq<char>>) -> Seq<ElementView> {
    match span_of(s.len() as int, in_ids(s, members)) {
        Some((a, b)) => to_end_seq(s, members, a, b, true),
        None => s,
    }
}

/// Runs as integer pairs.
pub open spec fn runs_view(r: Seq<(usize, usize)>) -> Seq<(int, int)> {
    Seq::new(r.len(), |k: int| (r[k].0 as int, r[k].1 as int))
}

} // verus!

verus! {

// ------------------------------------------------------------------ the rules

impl ZOrderMode {
    /// The command a plain name stands for; `None` for anything else.
    pub fn parse(value: &str) -> (r: Option<Self>)
        ensures
            r == zorder_named(value@),
    {
        if is_text(value, "front") {
            Some(ZOrderMode::Front)
        } else if is_text(value, "back") {
            Some(ZOrderMode::Back)
        } else if is_text(value, "forward") {
            Some(ZOrderMode::Forward)
        } else if is_text(value, "backward") {
            Some(ZOrderMode::Backward)
        } else {
            None
        }
    }

    /// The command's name.
    pub fn as_str(self) -> (r: &'static str)
        ensures
            r@ == zorder_name(self),
    {
        match self {
            ZOrderMode::Front => "front",
            ZOrderMode::Back => "back",
            ZOrderMode::Forward => "forward",
            ZOrderMode::Backward => "backward",
        }
    }
}

/// Appends `src[lo..hi]` to `out`.
fn push_range(out: &mut Vec<DrawElement>, src: &[DrawElement], lo: usize, hi: usize)
    requires
        lo <= hi <= src.len(),
    ensures
        scene(final(out)@) == scene(old(out)@) + scene(src@).subrange(lo as int, hi as int),
{
    let ghost head = scene(out@);
    let mut k: usize = lo;
    while k < hi
        invariant
            lo <= k <= hi <= src.len(),
            scene(out@) == head + scene(src@).subrange(lo as int, k as int),
        decreases hi - k,
    {
        let d = src[k].duplicate();
        let ghost prev = scene(out@);
        out.push(d);
        assert(scene(out@) =~= prev.push(scene(src@)[k as int]));
        assert(scene(out@) =~= head + scene(src@).subrange(lo as int, k + 1));
        k = k + 1;
    }
}

/// A copy of the whole stack.
fn copy_all(live: &[DrawElement]) -> (r: Vec<DrawElement>)
    ensures
        scene(r@) == scene(live@),
        r.len() == live.len(),
{
    let mut out: Vec<DrawElement> = Vec::new();
    push_range(&mut out, live, 0, live.len());
    assert(scene(out@) =~= scene(live@));
    assert(scene(out@).len() == out.len());
    out
}

/// `v` with the run `lead..=trail` moved past `t`, up when `forward`, down otherwise.
fn rotated(v: &Vec<DrawElement>, lead: usize, trail: usize, t: usize, forward: bool) -> (r: Vec<DrawElement>)
    requires
        forward ==> lead <= trail < t < v.len(),
        !forward ==> t < lead <= trail < v.len(),
    ensures
        scene(r@) == if forward {
            rot_fwd(scene(v@), lead as int, trail as int, t as int)
        } else {
            rot_back(scene(v@), lead as int, trail as int, t as int)
        },
        r.len() == v.len(),
{
    let mut out: Vec<DrawElement> = Vec::new();
    if forward {
        push_range(&mut out, v, 0, lead);
        push_range(&mut out, v, trail + 1, t + 1);
        push_range(&mut out, v, lead, trail + 1);
        push_range(&mut out, v, t + 1, v.len());
    } else {
        push_range(&mut out, v, 0, t);
        push_range(&mut out, v, lead, trail + 1);
        push_range(&mut out, v, t, lead);
        push_range(&mut out, v, trail + 1, v.len());
    }
    assert(scene(Seq::<DrawElement>::empty()) =~= Seq::<ElementView>::empty());
    assert(scene(out@).len() == out.len());
    assert(scene(v@).len() == v.len());
    out
}

/// The runs of moved elements, in board order.
fn runs_of(live: &[DrawElement], moved: &Vec<String>) -> (r: Vec<(usize, usize)>)
    ensures
        runs_view(r@) == runs_upto(scene(live@), idset(moved@), live.len() as int),
        forall|k: int| 0 <= k < r.len() ==> #[trigger] r@[k].0 <= r@[k].1 < live.len(),
{
    let ghost s = scene(live@);
    let ghost m = idset(moved@);
    let mut runs: Vec<(usize, usize)> = Vec::new();
    let mut i: usize = 0;
    while i < live.len()
        invariant
            i <= live.len(),
            s == scene(live@),
            m == idset(moved@),
            runs_view(runs@) == runs_upto(s, m, i as int),
            forall|k: int| 0 <= k < runs.len() ==> #[trigger] runs@[k].0 <= runs@[k].1 < i,
        decreases live.len() - i,
    {
        let ghost before = runs_upto(s, m, i as int);
        if contains_id(moved, &live[i].id) {
            let n = runs.len();
            if n > 0 && runs[n - 1].1 + 1 == i {
                let start = runs[n - 1].0;
                runs.set(n - 1, (start, i));
                assert(runs_view(runs@) =~= before.update(before.len() - 1, (before.last().0, i as int)));
            } else {
                runs.push((i, i));
                assert(runs_view(runs@) =~= before.push((i as int, i as int)));
            }
        } else {
            assert(runs_view(runs@) =~= before);
        }
        i = i + 1;
    }
    assert(i == live.len());
    runs
}

/// Each contiguous run of `moved` changes places with the unit beyond it; the run nearest
/// the end it is heading for goes first.
fn step(live: &[DrawElement], moved: &Vec<String>, editing: Option<&str>, forward: bool) -> (r: Vec<
    DrawElement,
>)
    ensures
        scene(r@) == step_seq(scene(live@), idset(moved@), strv(editing), forward),
{
    let ghost s = scene(live@);
    let runs = runs_of(live, moved);
    let mut order: Vec<(usize, usize)> = Vec::new();
    if forward {
        let mut k: usize = runs.len();
        while k > 0
            invariant
                k <= runs.len(),
                order.len() == runs.len() - k,
                forall|j: int| 0 <= j < order.len() ==> #[trigger] order@[j] == runs@[runs.len() - 1 - j],
            decreases k,
        {
            order.push(runs[k - 1]);
            k = k - 1;
        }
        assert(runs_view(order@) =~= runs_view(runs@).reverse());
    } else {
        let mut k: usize = 0;
        while k < runs.len()
            invariant
                k <= runs.len(),
                order.len() == k,
                forall|j: int| 0 <= j < k ==> #[trigger] order@[j] == runs@[j],
            decreases runs.len() - k,
        {
            order.push(runs[k]);
            k = k + 1;
        }
        assert(runs_view(order@) =~= runs_view(runs@));
    }
    let ghost ord = runs_view(order@);
    assert(forall|k: int| 0 <= k < order.len() ==> #[trigger] order@[k].0 <= order@[k].1 < live.len());
    let mut out = copy_all(live);
    let mut k: usize = 0;
    while k < order.len()
        invariant
            k <= order.len(),
            ord == runs_view(order@),
            out.len() == live.len(),
            forall|j: int| 0 <= j < order.len() ==> #[trigger] order@[j].0 <= order@[j].1 < live.len(),
            scene(out@) == fold_runs(s, ord.take(k as int), strv(editing), forward),
        decreases order.len() - k,
    {
        assert(ord.take(k + 1).drop_last() =~= ord.take(k as int));
        let (lead, trail) = order[k];
        assert(ord[k as int] == (lead as int, trail as int));
        let boundary = if forward {
            trail
        } else {
            lead
        };
        match target_index(&out, boundary, editing, forward) {
            Some(t) => {
                if forward && t > trail {
                    out = rotated(&out, lead, trail, t, true);
                } else if !forward && t < lead {
                    out = rotated(&out, lead, trail, t, false);
                }
            },
            None => {},
        }
        k = k + 1;
    }
    assert(ord.take(k as int) =~= ord);
    out
}

/// Whether every element of `ids` on the board is inside `group`.
fn all_in_group(live: &[DrawElement], ids: &Vec<String>, group: &str) -> (r: bool)
    ensures
        r == forall|i: int| 0 <= i < live.len() && idset(ids@).contains(#[trigger] scene(live@)[i].id) ==> in_group(
            scene(live@)[i],
            group@,
        ),
{
    let ghost s = scene(live@);
    let mut i: usize = 0;
    while i < live.len()
        invariant
            i <= live.len(),
            s == scene(live@),
            forall|j: int| 0 <= j < i && idset(ids@).contains(#[trigger] s[j].id) ==> in_group(s[j], group@),
        decreases live.len() - i,
    {
        if contains_id(ids, &live[i].id) && !is_in_group(&live[i], group) {
            assert(idset(ids@).contains(s[i as int].id));
            return false;
        }
        i = i + 1;
    }
    true
}

/// Moves `ids` through the stack, a group at a time: front and back go to the end of the
/// stack (inside an entered group, to the end of that group); forward and backward step
/// over one neighbour, a neighbour in a group being the whole group a click on it takes.
/// A label moves with its shape.
pub fn reorder_within(live: &[DrawElement], ids: &Vec<String>, mode: ZOrderMode, editing: Option<&str>) -> (r:
    Vec<DrawElement>)
    ensures
        scene(r@) == reorder(scene(live@), idset(ids@), mode, strv(editing)),
{
    let ghost s = scene(live@);
    let ghost sel = idset(ids@);
    let moved = with_labels(live, ids);
    let ghost m = idset(moved@);
    assert(m == sel.union(labels_of(s, sel)));
    let (a, b) = match span_ids(live, &moved) {
        None => {
            return copy_all(live);
        },
        Some(x) => x,
    };
    // Something selected is on the board: the first moved element, or the shape whose
    // label it is.
    let ghost witness: int = if sel.contains(s[a as int].id) {
        a as int
    } else {
        let k = choose|k: int|
            0 <= k < s.len() && (sel.contains(s[k].id) && s[k].bound_text_id is Some) && #[trigger] s[k].bound_text_id.unwrap() == s[a as int].id;
        k
    };
    proof {
        crate::group::lemma_first_such(live.len() as int, in_ids(s, m));
        crate::group::lemma_last_such(live.len() as int, in_ids(s, m));
        assert(in_ids(s, m)(witness));
    }
    let confined_to: Option<&str> = match editing {
        Some(g) => {
            if all_in_group(live, ids, g) {
                Some(g)
            } else {
                None
            }
        },
        None => None,
    };
    assert(strv(confined_to) == confined(s, sel, strv(editing)));
    let n = live.len();
    let (gs, ge) = match confined_to {
        Some(g) => match span_group(live, &g.to_owned()) {
            Some(x) => x,
            None => (0, n - 1),
        },
        None => (0, n - 1),
    };
    proof {
        if let Some(g) = strv(confined_to) {
            crate::group::lemma_first_such(live.len() as int, in_grp(s, g));
            crate::group::lemma_last_such(live.len() as int, in_grp(s, g));
            assert(in_grp(s, g)(witness));
        }
    }
    assert(gs <= witness <= ge);
    let lo = with_label(live, &live[gs], gs, false);
    let hi = with_label(live, &live[ge], ge, true);
    match mode {
        ZOrderMode::Front => to_end(live, &moved, a, hi, true),
        ZOrderMode::Back => to_end(live, &moved, lo, b, false),
        ZOrderMode::Forward => step(live, &moved, confined_to, true),
        ZOrderMode::Backward => step(live, &moved, confined_to, false),
    }
}

/// [`reorder_within`] with no group entered.
pub fn reorder_elements(live: &[DrawElement], ids: &Vec<String>, mode: ZOrderMode) -> (r: Vec<DrawElement>)
    ensures
        scene(r@) == reorder(scene(live@), idset(ids@), mode, None),
{
    reorder_within(live, ids, mode, None)
}

/// A new group's members, gathered directly under the topmost of them in the order they
/// had.
pub fn gather(live: &[DrawElement], members: &Vec<String>) -> (r: Vec<DrawElement>)
    ensures
        scene(r@) == gathered(scene(live@), idset(members@)),
{
    match span_ids(live, members) {
        Some((a, b)) => to_end(live, members, a, b, true),
        None => copy_all(live),
    }
}

/// The first element whose id is in `ids`.
fn first_in_ids(live: &[DrawElement], ids: &Vec<String>) -> (r: Option<usize>)
    ensures
        match r {
            Some(a) => a < live.len() && first_such(live.len() as int, in_ids(scene(live@), idset(ids@))) == Some(a as int),
            None => first_such(live.len() as int, in_ids(scene(live@), idset(ids@))) == None::<int>,
        },
{
    let ghost p = in_ids(scene(live@), idset(ids@));
    proof {
        lemma_first_such(live.len() as int, p);
    }
    let mut i: usize = 0;
    while i < live.len()
        invariant
            i <= live.len(),
            p == in_ids(scene(live@), idset(ids@)),
            forall|j: int| 0 <= j < i ==> !#[trigger] p(j),
        decreases live.len() - i,
    {
        if contains_id(ids, &live[i].id) {
            proof {
                lemma_first_found(live.len() as int, p, i as int);
            }
            return Some(i);
        }
        i = i + 1;
    }
    None
}

/// The last element whose id is in `ids`.
fn last_in_ids(live: &[DrawElement], ids: &Vec<String>) -> (r: Option<usize>)
    ensures
        match r {
            Some(b) => b < live.len() && last_such(live.len() as int, in_ids(scene(live@), idset(ids@))) == Some(b as int),
            None => last_such(live.len() as int, in_ids(scene(live@), idset(ids@))) == None::<int>,
        },
{
    let ghost p = in_ids(scene(live@), idset(ids@));
    proof {
        lemma_last_such(live.len() as int, p);
    }
    let mut k: usize = live.len();
    while k > 0
        invariant
            k <= live.len(),
            p == in_ids(scene(live@), idset(ids@)),
            forall|j: int| k <= j < live.len() ==> !#[trigger] p(j),
        decreases k,
    {
        if contains_id(ids, &live[k - 1].id) {
            proof {
                lemma_last_found(live.len() as int, p, k - 1);
            }
            return Some(k - 1);
        }
        k = k - 1;
    }
    None
}

/// The first and last element whose id is in `ids`.
fn span_ids(live: &[DrawElement], ids: &Vec<String>) -> (r: Option<(usize, usize)>)
    ensures
        match r {
            Some((a, b)) => a <= b < live.len() && span_of(live.len() as int, in_ids(scene(live@), idset(ids@)))
                == Some((a as int, b as int)),
            None => span_of(live.len() as int, in_ids(scene(live@), idset(ids@))) == None::<(int, int)>,
        },
{
    let ghost p = in_ids(scene(live@), idset(ids@));
    proof {
        lemma_first_such(live.len() as int, p);
        lemma_last_such(live.len() as int, p);
    }
    match first_in_ids(live, ids) {
        None => None,
        Some(a) => match last_in_ids(live, ids) {
            Some(b) => Some((a, b)),
            None => {
                assert(p(a as int));
                None
            },
        },
    }
}

/// The first member of `group`.
fn first_in_group(live: &[DrawElement], group: &String) -> (r: Option<usize>)
    ensures
        match r {
            Some(a) => a < live.len() && first_such(live.len() as int, in_grp(scene(live@), group@)) == Some(a as int),
            None => first_such(live.len() as int, in_grp(scene(live@), group@)) == None::<int>,
        },
{
    let ghost p = in_grp(scene(live@), group@);
    proof {
        lemma_first_such(live.len() as int, p);
    }
    let mut i: usize = 0;
    while i < live.len()
        invariant
            i <= live.len(),
            p == in_grp(scene(live@), group@),
            forall|j: int| 0 <= j < i ==> !#[trigger] p(j),
        decreases live.len() - i,
    {
        if carries_group(&live[i], group) {
            proof {
                lemma_first_found(live.len() as int, p, i as int);
            }
            return Some(i);
        }
        i = i + 1;
    }
    None
}

/// The last member of `group`.
fn last_in_group(live: &[DrawElement], group: &String) -> (r: Option<usize>)
    ensures
        match r {
            Some(b) => b < live.len() && last_such(live.len() as int, in_grp(scene(live@), group@)) == Some(b as int),
            None => last_such(live.len() as int, in_grp(scene(live@), group@)) == None::<int>,
        },
{
    let ghost p = in_grp(scene(live@), group@);
    proof {
        lemma_last_such(live.len() as int, p);
    }
    let mut k: usize = live.len();
    while k > 0
        invariant
            k <= live.len(),
            p == in_grp(scene(live@), group@),
            forall|j: int| k <= j < live.len() ==> !#[trigger] p(j),
        decreases k,
    {
        if carries_group(&live[k - 1], group) {
            proof {
                lemma_last_found(live.len() as int, p, k - 1);
            }
            return Some(k - 1);
        }
        k = k - 1;
    }
    None
}

/// The first and last member of `group`.
fn span_group(live: &[DrawElement], group: &String) -> (r: Option<(usize, usize)>)
    ensures
        match r {
            Some((a, b)) => a <= b < live.len() && span_of(live.len() as int, in_grp(scene(live@), group@))
                == Some((a as int, b as int)),
            None => span_of(live.len() as int, in_grp(scene(live@), group@)) == None::<(int, int)>,
        },
{
    let ghost p = in_grp(scene(live@), group@);
    proof {
        lemma_first_such(live.len() as int, p);
        lemma_last_such(live.len() as int, p);
    }
    match first_in_group(live, group) {
        None => None,
        Some(a) => match last_in_group(live, group) {
            Some(b) => Some((a, b)),
            None => {
                assert(p(a as int));
                None
            },
        },
    }
}

/// The first element above `boundary` that a step inside `editing` may land on.
fn next_in_scope(elements: &[DrawElement], boundary: usize, editing: Option<&str>) -> (r: Option<usize>)
    requires
        boundary < elements.len(),
    ensures
        match r {
            Some(c) => c < elements.len() && first_such(elements.len() as int, in_scope_after(scene(elements@), strv(editing), boundary as int)) == Some(c as int),
            None => first_such(elements.len() as int, in_scope_after(scene(elements@), strv(editing), boundary as int)) == None::<int>,
        },
{
    let ghost p = in_scope_after(scene(elements@), strv(editing), boundary as int);
    proof {
        lemma_first_such(elements.len() as int, p);
    }
    let mut i: usize = boundary + 1;
    while i < elements.len()
        invariant
            boundary + 1 <= i <= elements.len(),
            p == in_scope_after(scene(elements@), strv(editing), boundary as int),
            forall|j: int| 0 <= j < i ==> !#[trigger] p(j),
        decreases elements.len() - i,
    {
        if scoped(&elements[i], editing) {
            proof {
                lemma_first_found(elements.len() as int, p, i as int);
            }
            return Some(i);
        }
        i = i + 1;
    }
    None
}

/// The last element below `boundary` that a step inside `editing` may land on.
fn previous_in_scope(elements: &[DrawElement], boundary: usize, editing: Option<&str>) -> (r: Option<usize>)
    requires
        boundary < elements.len(),
    ensures
        match r {
            Some(c) => c < boundary && last_such(boundary as int, in_scope(scene(elements@), strv(editing))) == Some(c as int),
            None => last_such(boundary as int, in_scope(scene(elements@), strv(editing))) == None::<int>,
        },
{
    let ghost p = in_scope(scene(elements@), strv(editing));
    proof {
        lemma_last_such(boundary as int, p);
    }
    let mut k: usize = boundary;
    while k > 0
        invariant
            k <= boundary < elements.len(),
            p == in_scope(scene(elements@), strv(editing)),
            forall|j: int| k <= j < boundary ==> !#[trigger] p(j),
        decreases k,
    {
        if scoped(&elements[k - 1], editing) {
            proof {
                lemma_last_found(boundary as int, p, k - 1);
            }
            return Some(k - 1);
        }
        k = k - 1;
    }
    None
}

/// Where the element with id `id` is.
fn position_id(live: &[DrawElement], id: &String) -> (r: Option<usize>)
    ensures
        match r {
            Some(k) => k < live.len() && first_such(live.len() as int, has_id(scene(live@), id@)) == Some(
                k as int,
            ),
            None => first_such(live.len() as int, has_id(scene(live@), id@)) == None::<int>,
        },
{
    let ghost s = scene(live@);
    let ghost p = has_id(s, id@);
    proof {
        lemma_first_such(live.len() as int, p);
    }
    let mut i: usize = 0;
    while i < live.len()
        invariant
            i <= live.len(),
            s == scene(live@),
            p == has_id(s, id@),
            forall|j: int| 0 <= j < i ==> !#[trigger] p(j),
        decreases live.len() - i,
    {
        if same_text(&live[i].id, id) {
            proof {
                lemma_first_found(live.len() as int, p, i as int);
            }
            return Some(i);
        }
        i = i + 1;
    }
    None
}

/// `at`, or the far side of `element`'s label (or of the shape it labels) if that lies
/// beyond: the two are one unit to step over.
fn with_label(elements: &[DrawElement], element: &DrawElement, at: usize, forward: bool) -> (r: usize)
    requires
        at < elements.len(),
    ensures
        r < elements.len(),
        r == label_reach(scene(elements@), element@, at as int, forward),
{
    let partner: Option<&String> = match &element.container_id {
        Some(c) => Some(c),
        None => match &element.bound_text_id {
            Some(b) => Some(b),
            None => None,
        },
    };
    match partner {
        Some(id) => match position_id(elements, id) {
            Some(other) => {
                if forward {
                    if other > at {
                        other
                    } else {
                        at
                    }
                } else {
                    if other < at {
                        other
                    } else {
                        at
                    }
                }
            },
            None => at,
        },
        None => at,
    }
}

/// Whether two lists of groups are the same, level by level.
pub(crate) fn same_levels(a: &Vec<String>, b: &Vec<String>) -> (r: bool)
    ensures
        r == (sv(a@) == sv(b@)),
{
    if a.len() != b.len() {
        assert(sv(a@).len() != sv(b@).len());
        return false;
    }
    let mut i: usize = 0;
    while i < a.len()
        invariant
            i <= a.len(),
            a.len() == b.len(),
            forall|j: int| 0 <= j < i ==> a@[j]@ == b@[j]@,
        decreases a.len() - i,
    {
        if !same_text(&a[i], &b[i]) {
            assert(sv(a@)[i as int] != sv(b@)[i as int]);
            return false;
        }
        i = i + 1;
    }
    assert(sv(a@) =~= sv(b@));
    true
}

/// Whether `element` is one a step inside `editing` may land on.
fn scoped(element: &DrawElement, editing: Option<&str>) -> (r: bool)
    ensures
        r == match strv(editing) {
            None => true,
            Some(g) => in_group(element@, g),
        },
{
    match editing {
        None => true,
        Some(g) => is_in_group(element, g),
    }
}

/// Where the element at `boundary` steps to: past the next element, or past the whole
/// unit that element belongs to.
fn target_index(elements: &[DrawElement], boundary: usize, editing: Option<&str>, forward: bool) -> (r:
    Option<usize>)
    requires
        boundary < elements.len(),
    ensures
        match r {
            Some(t) => t < elements.len() && target(scene(elements@), boundary as int, strv(editing), forward)
                == Some(t as int),
            None => target(scene(elements@), boundary as int, strv(editing), forward) == None::<int>,
        },
{
    let ghost s = scene(elements@);
    let ghost ed = strv(editing);
    let candidate = if forward {
        next_in_scope(elements, boundary, editing)
    } else {
        previous_in_scope(elements, boundary, editing)
    };
    let c = match candidate {
        None => {
            return None;
        },
        Some(c) => c,
    };
    let next = &elements[c];
    let sibling = editing.is_some() && same_levels(&elements[boundary].group_ids, &next.group_ids);
    let group = if sibling {
        None
    } else {
        selected_group_for(next, editing)
    };
    match group {
        None => Some(with_label(elements, next, c, forward)),
        Some(g) => match span_group(elements, g) {
            Some((first, last)) => {
                if forward {
                    Some(last)
                } else {
                    Some(first)
                }
            },
            None => None,
        },
    }
}

/// What of `moved` lies within `lo..=hi`, stacked at its top (or bottom), each side
/// keeping its own order; nothing outside the range is touched.
fn to_end(live: &[DrawElement], moved: &Vec<String>, lo: usize, hi: usize, top: bool) -> (r: Vec<
    DrawElement,
>)
    requires
        lo <= hi + 1,
        hi < live.len(),
    ensures
        scene(r@) == to_end_seq(scene(live@), idset(moved@), lo as int, hi as int, top),
{
    let ghost s = scene(live@);
    let ghost m = idset(moved@);
    let ghost range = s.subrange(lo as int, hi + 1);
    let mut inside: Vec<DrawElement> = Vec::new();
    let mut displaced: Vec<DrawElement> = Vec::new();
    let mut i: usize = lo;
    while i <= hi
        invariant
            lo <= i <= hi + 1,
            hi < live.len(),
            s == scene(live@),
            m == idset(moved@),
            range == s.subrange(lo as int, hi + 1),
            scene(inside@) == range.take(i - lo).filter(moving(m)),
            scene(displaced@) == range.take(i - lo).filter(staying(m)),
        decreases hi + 1 - i,
    {
        proof {
            crate::group::lemma_filter_step(range, moving(m), i - lo);
            crate::group::lemma_filter_step(range, staying(m), i - lo);
        }
        assert(range[i - lo] == live@[i as int]@);
        if contains_id(moved, &live[i].id) {
            inside.push(live[i].duplicate());
        } else {
            displaced.push(live[i].duplicate());
        }
        assert(scene(inside@) =~= range.take(i + 1 - lo).filter(moving(m)));
        assert(scene(displaced@) =~= range.take(i + 1 - lo).filter(staying(m)));
        i = i + 1;
    }
    assert(range.take(hi + 1 - lo) =~= range);
    let mut out: Vec<DrawElement> = Vec::new();
    let mut k: usize = 0;
    while k < lo
        invariant
            k <= lo <= hi + 1,
            hi < live.len(),
            s == scene(live@),
            scene(out@) == s.subrange(0, k as int),
        decreases lo - k,
    {
        let d = live[k].duplicate();
        let ghost prev = scene(out@);
        out.push(d);
        assert(scene(out@) =~= prev.push(s[k as int]));
        assert(scene(out@) =~= s.subrange(0, k + 1));
        k = k + 1;
    }
    let (first, second) = if top {
        (&displaced, &inside)
    } else {
        (&inside, &displaced)
    };
    let ghost head = scene(out@);
    let mut a: usize = 0;
    while a < first.len()
        invariant
            a <= first.len(),
            scene(out@) == head + scene(first@).take(a as int),
        decreases first.len() - a,
    {
        let d = first[a].duplicate();
        let ghost prev = scene(out@);
        out.push(d);
        assert(scene(out@) =~= prev.push(scene(first@)[a as int]));
        assert(scene(out@) =~= head + scene(first@).take(a + 1));
        a = a + 1;
    }
    assert(scene(first@).take(a as int) =~= scene(first@));
    let ghost head2 = scene(out@);
    let mut b: usize = 0;
    while b < second.len()
        invariant
            b <= second.len(),
            scene(out@) == head2 + scene(second@).take(b as int),
        decreases second.len() - b,
    {
        let d = second[b].duplicate();
        let ghost prev = scene(out@);
        out.push(d);
        assert(scene(out@) =~= prev.push(scene(second@)[b as int]));
        assert(scene(out@) =~= head2 + scene(second@).take(b + 1));
        b = b + 1;
    }
    assert(scene(second@).take(b as int) =~= scene(second@));
    let ghost head3 = scene(out@);
    let mut c: usize = hi + 1;
    while c < live.len()
        invariant
            hi + 1 <= c <= live.len(),
            s == scene(live@),
            scene(out@) == head3 + s.subrange(hi + 1, c as int),
        decreases live.len() - c,
    {
        let d = live[c].duplicate();
        let ghost prev = scene(out@);
        out.push(d);
        assert(scene(out@) =~= prev.push(s[c as int]));
        assert(scene(out@) =~= head3 + s.subrange(hi + 1, c + 1));
        c = c + 1;
    }
    assert(scene(out@) =~= to_end_seq(s, m, lo as int, hi as int, top));
    out
}

} // verus!

verus! {

// ------------------------------------------------------------------ laws

/// A command's name reads back as that command.
pub proof fn lemma_zorder_name_round_trip(mode: ZOrderMode)
    ensures
        zorder_named(zorder_name(mode)) == Some(mode),
{
    reveal_strlit("front");
    reveal_strlit("back");
    reveal_strlit("forward");
    reveal_strlit("backward");
    assert("front"@.len() == 5);
    assert("back"@.len() == 4);
    assert("forward"@.len() == 7);
    assert("backward"@.len() == 8);
}

proof fn lemma_split_permutes(s: Seq<ElementView>, m: Set<Seq<char>>)
    ensures
        (s.filter(moving(m)) + s.filter(staying(m))).to_multiset() =~= s.to_multiset(),
    decreases s.len(),
{
    reveal(Seq::filter);
    broadcast use vstd::seq_lib::to_multiset_build, vstd::seq_lib::lemma_multiset_commutative, vstd::multiset::group_multiset_axioms;

    if s.len() == 0 {
        assert(s.filter(moving(m)) =~= Seq::<ElementView>::empty());
        assert(s.filter(staying(m)) =~= Seq::<ElementView>::empty());
        assert(s.filter(moving(m)) + s.filter(staying(m)) =~= s);
    } else {
        let t = s.drop_last();
        let x = s.last();
        lemma_split_permutes(t, m);
        assert(s =~= t.push(x));
        if moving(m)(x) {
            assert(s.filter(moving(m)) == t.filter(moving(m)).push(x));
            assert(s.filter(staying(m)) == t.filter(staying(m)));
        } else {
            assert(s.filter(moving(m)) == t.filter(moving(m)));
            assert(s.filter(staying(m)) == t.filter(staying(m)).push(x));
        }
    }
}

proof fn lemma_cut_three(s: Seq<ElementView>, a: int, b: int)
    requires
        0 <= a <= b <= s.len(),
    ensures
        s.to_multiset() =~= s.subrange(0, a).to_multiset().add(s.subrange(a, b).to_multiset()).add(
            s.subrange(b, s.len() as int).to_multiset(),
        ),
{
    broadcast use vstd::seq_lib::lemma_multiset_commutative, vstd::multiset::group_multiset_axioms;

    assert(s =~= s.subrange(0, a) + s.subrange(a, b) + s.subrange(b, s.len() as int));
}

/// Stacking part of a range at one end of it keeps every element.
pub proof fn lemma_to_end_permutes(s: Seq<ElementView>, m: Set<Seq<char>>, lo: int, hi: int, top: bool)
    requires
        0 <= lo <= hi + 1 <= s.len(),
    ensures
        to_end_seq(s, m, lo, hi, top).to_multiset() =~= s.to_multiset(),
{
    broadcast use vstd::seq_lib::lemma_multiset_commutative, vstd::multiset::group_multiset_axioms;

    let range = s.subrange(lo, hi + 1);
    lemma_split_permutes(range, m);
    lemma_cut_three(s, lo, hi + 1);
    let ins = range.filter(moving(m));
    let dis = range.filter(staying(m));
    assert((dis + ins).to_multiset() =~= (ins + dis).to_multiset());
}

/// Moving a run up or down keeps every element.
pub proof fn lemma_rot_permutes(s: Seq<ElementView>, lead: int, trail: int, t: int, forward: bool)
    requires
        forward ==> 0 <= lead <= trail < t < s.len(),
        !forward ==> 0 <= t < lead <= trail < s.len(),
    ensures
        forward ==> rot_fwd(s, lead, trail, t).to_multiset() =~= s.to_multiset(),
        !forward ==> rot_back(s, lead, trail, t).to_multiset() =~= s.to_multiset(),
{
    broadcast use vstd::seq_lib::lemma_multiset_commutative, vstd::multiset::group_multiset_axioms;

    if forward {
        assert(s =~= s.subrange(0, lead) + s.subrange(lead, trail + 1) + s.subrange(trail + 1, t + 1)
            + s.subrange(t + 1, s.len() as int));
    } else {
        assert(s =~= s.subrange(0, t) + s.subrange(t, lead) + s.subrange(lead, trail + 1) + s.subrange(
            trail + 1,
            s.len() as int,
        ));
    }
}

/// A label's reach stays on the board, on the side it reaches towards.
pub proof fn lemma_label_reach_bounds(s: Seq<ElementView>, e: ElementView, at: int, forward: bool)
    requires
        0 <= at < s.len(),
    ensures
        0 <= label_reach(s, e, at, forward) < s.len(),
        forward ==> label_reach(s, e, at, forward) >= at,
        !forward ==> label_reach(s, e, at, forward) <= at,
{
    if let Some(id) = partner_id(e) {
        lemma_first_such(s.len() as int, has_id(s, id));
    }
}

/// Where a step lands is on the board.
pub proof fn lemma_target_bounds(s: Seq<ElementView>, boundary: int, editing: Option<Seq<char>>, forward: bool)
    requires
        0 <= boundary < s.len(),
    ensures
        target(s, boundary, editing, forward) matches Some(t) ==> 0 <= t < s.len(),
{
    lemma_first_such(s.len() as int, in_scope_after(s, editing, boundary));
    lemma_last_such(boundary, in_scope(s, editing));
    let candidate = if forward {
        first_such(s.len() as int, in_scope_after(s, editing, boundary))
    } else {
        last_such(boundary, in_scope(s, editing))
    };
    if let Some(c) = candidate {
        lemma_label_reach_bounds(s, s[c], c, forward);
        let next = s[c];
        let sibling = editing is Some && s[boundary].group_ids == next.group_ids;
        if !sibling {
            if let Some(g) = group_at(next.group_ids, editing) {
                lemma_first_such(s.len() as int, in_grp(s, g));
                lemma_last_such(s.len() as int, in_grp(s, g));
            }
        }
    }
}

/// One run's step keeps every element.
pub proof fn lemma_apply_run_permutes(s: Seq<ElementView>, run: (int, int), editing: Option<Seq<char>>, forward: bool)
    requires
        0 <= run.0 <= run.1 < s.len(),
    ensures
        apply_run(s, run, editing, forward).to_multiset() =~= s.to_multiset(),
        apply_run(s, run, editing, forward).len() == s.len(),
{
    broadcast use vstd::seq_lib::to_multiset_len;

    let (lead, trail) = run;
    let boundary = if forward {
        trail
    } else {
        lead
    };
    lemma_target_bounds(s, boundary, editing, forward);
    if let Some(t) = target(s, boundary, editing, forward) {
        if forward && t > trail {
            lemma_rot_permutes(s, lead, trail, t, true);
        } else if !forward && t < lead {
            lemma_rot_permutes(s, lead, trail, t, false);
        }
    }
}

/// A sequence of run steps keeps every element.
pub proof fn lemma_fold_permutes(s: Seq<ElementView>, runs: Seq<(int, int)>, editing: Option<Seq<char>>, forward: bool)
    requires
        forall|k: int| 0 <= k < runs.len() ==> 0 <= #[trigger] runs[k].0 <= runs[k].1 < s.len(),
    ensures
        fold_runs(s, runs, editing, forward).to_multiset() =~= s.to_multiset(),
        fold_runs(s, runs, editing, forward).len() == s.len(),
    decreases runs.len(),
{
    if runs.len() > 0 {
        let rest = runs.drop_last();
        assert forall|k: int| 0 <= k < rest.len() implies 0 <= #[trigger] rest[k].0 <= rest[k].1 < s.len() by {
            assert(rest[k] == runs[k]);
        }
        lemma_fold_permutes(s, rest, editing, forward);
        let mid = fold_runs(s, rest, editing, forward);
        assert(runs.last() == runs[runs.len() - 1]);
        lemma_apply_run_permutes(mid, runs.last(), editing, forward);
    }
}

/// The runs of a prefix lie inside it.
pub proof fn lemma_runs_bounds(s: Seq<ElementView>, m: Set<Seq<char>>, n: int)
    requires
        0 <= n,
    ensures
        forall|k: int|
            0 <= k < runs_upto(s, m, n).len() ==> 0 <= #[trigger] runs_upto(s, m, n)[k].0 <= runs_upto(
                s,
                m,
                n,
            )[k].1 < n,
    decreases n,
{
    if n > 0 {
        lemma_runs_bounds(s, m, n - 1);
        let r = runs_upto(s, m, n - 1);
        let q = runs_upto(s, m, n);
        assert forall|k: int| 0 <= k < q.len() implies 0 <= #[trigger] q[k].0 <= q[k].1 < n by {
            if !m.contains(s[n - 1].id) {
                assert(q[k] == r[k]);
            } else if r.len() > 0 && r.last().1 + 1 == n - 1 {
                if k < r.len() - 1 {
                    assert(q[k] == r[k]);
                } else {
                    assert(r.last() == r[r.len() - 1]);
                }
            } else {
                if k < r.len() {
                    assert(q[k] == r[k]);
                }
            }
        }
    }
}

/// The ranges a reorder works on lie on the board: the selected span, and the ends of the
/// stack or of the entered group, widened to their labels.
pub proof fn lemma_reorder_ranges(s: Seq<ElementView>, ids: Set<Seq<char>>, editing: Option<Seq<char>>)
    requires
        span_of(s.len() as int, in_ids(s, ids.union(labels_of(s, ids)))) is Some,
    ensures
        ({
            let n = s.len() as int;
            let (a, b) = span_of(n, in_ids(s, ids.union(labels_of(s, ids)))).unwrap();
            let ends = match confined(s, ids, editing) {
                Some(g) => match span_of(n, in_grp(s, g)) {
                    Some(x) => x,
                    None => (0, n - 1),
                },
                None => (0, n - 1),
            };
            let lo = label_reach(s, s[ends.0], ends.0, false);
            let hi = label_reach(s, s[ends.1], ends.1, true);
            &&& 0 <= a <= b < n
            &&& 0 <= ends.0 <= ends.1 < n
            &&& 0 <= lo <= b
            &&& a <= hi < n
        }),
{
    let moved = ids.union(labels_of(s, ids));
    let n = s.len() as int;
    lemma_first_such(n, in_ids(s, moved));
    lemma_last_such(n, in_ids(s, moved));
    let (a, b) = span_of(n, in_ids(s, moved)).unwrap();
    let witness: int = if ids.contains(s[a].id) {
        a
    } else {
        let k = choose|k: int|
            0 <= k < n && (ids.contains(s[k].id) && s[k].bound_text_id is Some) && #[trigger] s[k].bound_text_id.unwrap() == s[a].id;
        k
    };
    assert(in_ids(s, moved)(witness));
    let ed = confined(s, ids, editing);
    if let Some(g) = ed {
        lemma_first_such(n, in_grp(s, g));
        lemma_last_such(n, in_grp(s, g));
        assert(in_grp(s, g)(witness));
    }
    let ends = match ed {
        Some(g) => match span_of(n, in_grp(s, g)) {
            Some(x) => x,
            None => (0, n - 1),
        },
        None => (0, n - 1),
    };
    assert(0 <= ends.0 <= witness <= ends.1 < n);
    lemma_label_reach_bounds(s, s[ends.0], ends.0, false);
    lemma_label_reach_bounds(s, s[ends.1], ends.1, true);
}

/// Stepping every run of moved elements keeps every element.
pub proof fn lemma_step_permutes(s: Seq<ElementView>, moved: Set<Seq<char>>, editing: Option<Seq<char>>, forward: bool)
    ensures
        step_seq(s, moved, editing, forward).to_multiset() =~= s.to_multiset(),
{
    let runs = runs_upto(s, moved, s.len() as int);
    lemma_runs_bounds(s, moved, s.len() as int);
    if forward {
        assert forall|k: int| 0 <= k < runs.reverse().len() implies 0 <= #[trigger] runs.reverse()[k].0
            <= runs.reverse()[k].1 < s.len() by {
            assert(runs.reverse()[k] == runs[runs.len() - 1 - k]);
        }
        lemma_fold_permutes(s, runs.reverse(), editing, true);
    } else {
        lemma_fold_permutes(s, runs, editing, false);
    }
}

/// Every z-order command only rearranges the stack: the elements after it are exactly
/// those before it, each as often.
#[verifier::rlimit(40)]
pub proof fn lemma_reorder_permutes(s: Seq<ElementView>, ids: Set<Seq<char>>, mode: ZOrderMode, editing: Option<Seq<char>>)
    ensures
        reorder(s, ids, mode, editing).to_multiset() =~= s.to_multiset(),
{
    let moved = ids.union(labels_of(s, ids));
    let n = s.len() as int;
    if span_of(n, in_ids(s, moved)) is Some {
        lemma_reorder_ranges(s, ids, editing);
        let (a, b) = span_of(n, in_ids(s, moved)).unwrap();
        let ed = confined(s, ids, editing);
        let ends = match ed {
            Some(g) => match span_of(n, in_grp(s, g)) {
                Some(x) => x,
                None => (0, n - 1),
            },
            None => (0, n - 1),
        };
        let lo = label_reach(s, s[ends.0], ends.0, false);
        let hi = label_reach(s, s[ends.1], ends.1, true);
        match mode {
            ZOrderMode::Front => lemma_to_end_permutes(s, moved, a, hi, true),
            ZOrderMode::Back => lemma_to_end_permutes(s, moved, lo, b, false),
            ZOrderMode::Forward => lemma_step_permutes(s, moved, ed, true),
            ZOrderMode::Backward => lemma_step_permutes(s, moved, ed, false),
        }
    }
}

/// Gathering a group's members only rearranges the stack.
pub proof fn lemma_gather_permutes(s: Seq<ElementView>, members: Set<Seq<char>>)
    ensures
        gathered(s, members).to_multiset() =~= s.to_multiset(),
{
    lemma_first_such(s.len() as int, in_ids(s, members));
    lemma_last_such(s.len() as int, in_ids(s, members));
    if let Some((a, b)) = span_of(s.len() as int, in_ids(s, members)) {
        lemma_to_end_permutes(s, members, a, b, true);
    }
}

} // verus!

verus! {

/// A filter that drops everything leaves nothing.
proof fn lemma_filter_drops_all<A>(a: Seq<A>, p: spec_fn(A) -> bool)
    requires
        forall|i: int| 0 <= i < a.len() ==> !p(#[trigger] a[i]),
    ensures
        a.filter(p) == Seq::<A>::empty(),
    decreases a.len(),
{
    reveal(Seq::filter);
    if a.len() > 0 {
        lemma_filter_drops_all(a.drop_last(), p);
    }
}

/// Gathering makes a new group one run of the stack: its members, in the order they had,
/// sit directly under where the topmost of them was, and nothing else lies among them.
pub proof fn lemma_gather_one_run(s: Seq<ElementView>, members: Set<Seq<char>>, a: int, b: int)
    requires
        span_of(s.len() as int, in_ids(s, members)) == Some((a, b)),
    ensures
        ({
            let r = gathered(s, members);
            let k = s.filter(moving(members)).len() as int;
            &&& r.len() == s.len()
            &&& 1 <= k <= b + 1
            &&& r.subrange(b + 1 - k, b + 1) == s.filter(moving(members))
            &&& forall|i: int|
                0 <= i < r.len() && !(b + 1 - k <= i <= b) ==> !members.contains(#[trigger] r[i].id)
        }),
{
    let n = s.len() as int;
    let p = in_ids(s, members);
    lemma_first_such(n, p);
    lemma_last_such(n, p);
    let mv = moving(members);
    let st = staying(members);
    let pre = s.subrange(0, a);
    let range = s.subrange(a, b + 1);
    let post = s.subrange(b + 1, n);
    let inside = range.filter(mv);
    let displaced = range.filter(st);
    assert forall|i: int| 0 <= i < pre.len() implies !mv(#[trigger] pre[i]) by {
        assert(pre[i] == s[i]);
        assert(!p(i));
    }
    assert forall|i: int| 0 <= i < post.len() implies !mv(#[trigger] post[i]) by {
        assert(post[i] == s[b + 1 + i]);
        assert(!p(b + 1 + i));
    }
    lemma_filter_drops_all(pre, mv);
    lemma_filter_drops_all(post, mv);
    assert(s =~= pre + (range + post));
    Seq::filter_distributes_over_add(pre, range + post, mv);
    Seq::filter_distributes_over_add(range, post, mv);
    assert(s.filter(mv) =~= inside);
    range.lemma_filter_len(mv);
    range.lemma_filter_len(st);
    lemma_to_end_permutes(s, members, a, b, true);
    assert(range[0] == s[a]);
    assert(p(a));
    range.lemma_filter_contains_rev(mv, range[0]);
    assert(inside.len() >= 1) by {
        assert(inside.contains(range[0]));
    }
    // What the range keeps and what it moves add up to the range.
    lemma_filter_split_len(range, members);
    let k = inside.len() as int;
    let r = gathered(s, members);
    assert(r == pre + (displaced + inside) + post);
    assert(displaced.len() == (b + 1 - a) - k);
    assert(r.subrange(b + 1 - k, b + 1) =~= inside);
    assert forall|i: int| 0 <= i < r.len() && !(b + 1 - k <= i <= b) implies !members.contains(
        #[trigger] r[i].id,
    ) by {
        if i < a {
            assert(r[i] == pre[i]);
            assert(!mv(pre[i]));
        } else if i < b + 1 - k {
            assert(r[i] == displaced[i - a]);
            range.lemma_filter_pred(st, i - a);
        } else {
            assert(r[i] == post[i - (b + 1)]);
            assert(!mv(post[i - (b + 1)]));
        }
    }
}

/// What a range moves and what it keeps share out its length.
proof fn lemma_filter_split_len(range: Seq<ElementView>, members: Set<Seq<char>>)
    ensures
        range.filter(moving(members)).len() + range.filter(staying(members)).len() == range.len(),
    decreases range.len(),
{
    reveal(Seq::filter);
    if range.len() > 0 {
        lemma_filter_split_len(range.drop_last(), members);
    }
}

} // verus!

verus! {

/// A filter that keeps everything keeps the whole sequence.
proof fn lemma_filter_keeps_every<A>(a: Seq<A>, p: spec_fn(A) -> bool)
    requires
        forall|i: int| 0 <= i < a.len() ==> p(#[trigger] a[i]),
    ensures
        a.filter(p) == a,
    decreases a.len(),
{
    reveal(Seq::filter);
    if a.len() > 0 {
        lemma_filter_keeps_every(a.drop_last(), p);
        assert(a.drop_last().push(a.last()) =~= a);
    }
}

/// The label reach of the ends of a whole stack is the ends themselves.
proof fn lemma_reach_whole(s: Seq<ElementView>)
    requires
        s.len() > 0,
    ensures
        label_reach(s, s[s.len() - 1], s.len() - 1, true) == s.len() - 1,
        label_reach(s, s[0], 0, false) == 0,
{
    let n = s.len() as int;
    match partner_id(s[n - 1]) {
        Some(id) => {
            lemma_first_such(n, has_id(s, id));
        },
        None => {},
    }
    match partner_id(s[0]) {
        Some(id) => {
            lemma_first_such(n, has_id(s, id));
        },
        None => {},
    }
}

/// With nothing moving, both filters read the stack as it is.
proof fn lemma_none_moves(s: Seq<ElementView>, moved: Set<Seq<char>>)
    requires
        forall|i: int| 0 <= i < s.len() ==> !moved.contains(#[trigger] s[i].id),
    ensures
        s.filter(staying(moved)) == s,
        s.filter(moving(moved)) == Seq::<ElementView>::empty(),
{
    assert forall|i: int| 0 <= i < s.len() implies staying(moved)(#[trigger] s[i]) by {}
    assert forall|i: int| 0 <= i < s.len() implies !moving(moved)(#[trigger] s[i]) by {}
    lemma_filter_keeps_every(s, staying(moved));
    lemma_filter_drops_all(s, moving(moved));
}

/// Bringing to front with no group entered.
proof fn lemma_front_end(s: Seq<ElementView>, ids: Set<Seq<char>>)
    ensures
        reorder(s, ids, ZOrderMode::Front, None) == s.filter(staying(ids.union(labels_of(s, ids)))) + s.filter(
            moving(ids.union(labels_of(s, ids))),
        ),
{
    let n = s.len() as int;
    let moved = ids.union(labels_of(s, ids));
    let p = in_ids(s, moved);
    let mv = moving(moved);
    let st = staying(moved);
    lemma_first_such(n, p);
    lemma_last_such(n, p);
    match span_of(n, p) {
        None => {
            assert forall|i: int| 0 <= i < n implies !moved.contains(#[trigger] s[i].id) by {
                assert(!p(i));
            }
            lemma_none_moves(s, moved);
            assert(s + Seq::<ElementView>::empty() =~= s);
        },
        Some((a, b)) => {
            lemma_reach_whole(s);
            let pre = s.subrange(0, a);
            let range = s.subrange(a, n);
            assert forall|i: int| 0 <= i < pre.len() implies !moved.contains(#[trigger] pre[i].id) by {
                assert(pre[i] == s[i]);
                assert(!p(i));
            }
            lemma_none_moves(pre, moved);
            assert(s =~= pre + range);
            Seq::filter_distributes_over_add(pre, range, st);
            Seq::filter_distributes_over_add(pre, range, mv);
            assert(s.subrange(n, n) =~= Seq::<ElementView>::empty());
            assert(reorder(s, ids, ZOrderMode::Front, None) =~= s.filter(st) + s.filter(mv));
        },
    }
}

/// Sending to back with no group entered.
proof fn lemma_back_end(s: Seq<ElementView>, ids: Set<Seq<char>>)
    ensures
        reorder(s, ids, ZOrderMode::Back, None) == s.filter(moving(ids.union(labels_of(s, ids)))) + s.filter(
            staying(ids.union(labels_of(s, ids))),
        ),
{
    let n = s.len() as int;
    let moved = ids.union(labels_of(s, ids));
    let p = in_ids(s, moved);
    let mv = moving(moved);
    let st = staying(moved);
    lemma_first_such(n, p);
    lemma_last_such(n, p);
    match span_of(n, p) {
        None => {
            assert forall|i: int| 0 <= i < n implies !moved.contains(#[trigger] s[i].id) by {
                assert(!p(i));
            }
            lemma_none_moves(s, moved);
            assert(Seq::<ElementView>::empty() + s =~= s);
        },
        Some((a, b)) => {
            lemma_reach_whole(s);
            let low = s.subrange(0, b + 1);
            let post = s.subrange(b + 1, n);
            assert forall|i: int| 0 <= i < post.len() implies !moved.contains(#[trigger] post[i].id) by {
                assert(post[i] == s[b + 1 + i]);
                assert(!p(b + 1 + i));
            }
            lemma_none_moves(post, moved);
            assert(s =~= low + post);
            Seq::filter_distributes_over_add(low, post, st);
            Seq::filter_distributes_over_add(low, post, mv);
            assert(s.subrange(0, 0) =~= Seq::<ElementView>::empty());
            assert(reorder(s, ids, ZOrderMode::Back, None) =~= s.filter(mv) + s.filter(st));
        },
    }
}

/// Front and back go to the ends of the stack: with no group entered, bringing to front
/// leaves everything else in its order with what moves on top, in its order, and sending
/// to back puts what moves at the bottom the same way. What moves is the selection and
/// the labels of its shapes.
pub proof fn lemma_front_back_ends(s: Seq<ElementView>, ids: Set<Seq<char>>)
    ensures
        ({
            let moved = ids.union(labels_of(s, ids));
            &&& reorder(s, ids, ZOrderMode::Front, None) == s.filter(staying(moved)) + s.filter(moving(moved))
            &&& reorder(s, ids, ZOrderMode::Back, None) == s.filter(moving(moved)) + s.filter(staying(moved))
        }),
{
    lemma_front_end(s, ids);
    lemma_back_end(s, ids);
}

/// A step passes a whole group: when the element a step meets belongs to a group that a
/// click on it selects, the step lands on a member of that group, at or below every member
/// when stepping backward and at or above every member when stepping forward, so that
/// what moves never lands between two of its members.
pub proof fn lemma_step_passes_whole_group(
    s: Seq<ElementView>,
    boundary: int,
    editing: Option<Seq<char>>,
    forward: bool,
    c: int,
    g: Seq<char>,
)
    requires
        0 <= boundary < s.len(),
        forward ==> first_such(s.len() as int, in_scope_after(s, editing, boundary)) == Some(c),
        !forward ==> last_such(boundary, in_scope(s, editing)) == Some(c),
        !(editing is Some && s[boundary].group_ids == s[c].group_ids),
        group_at(s[c].group_ids, editing) == Some(g),
    ensures
        target(s, boundary, editing, forward) is Some,
        ({
            let t = target(s, boundary, editing, forward).unwrap();
            &&& 0 <= t < s.len()
            &&& in_group(s[t], g)
            &&& forall|i: int|
                0 <= i < s.len() && #[trigger] in_group(s[i], g) ==> if forward {
                    i <= t
                } else {
                    t <= i
                }
        }),
{
    if forward {
        lemma_first_such(s.len() as int, in_scope_after(s, editing, boundary));
    } else {
        lemma_last_such(boundary, in_scope(s, editing));
    }
    match editing {
        Some(e) => {
            s[c].group_ids.index_of_first_ensures(e);
        },
        None => {},
    }
    assert(in_grp(s, g)(c));
    if forward {
        lemma_last_such(s.len() as int, in_grp(s, g));
        let t = last_such(s.len() as int, in_grp(s, g)).unwrap();
        assert forall|i: int| 0 <= i < s.len() && #[trigger] in_group(s[i], g) implies i <= t by {
            assert(in_grp(s, g)(i));
        }
    } else {
        lemma_first_such(s.len() as int, in_grp(s, g));
        let t = first_such(s.len() as int, in_grp(s, g)).unwrap();
        assert forall|i: int| 0 <= i < s.len() && #[trigger] in_group(s[i], g) implies t <= i by {
            assert(in_grp(s, g)(i));
        }
    }
}

/// A shape and its label are one unit to step over: when the element a step meets is in
/// no group the click would select, the step lands on it or beyond it, and beyond its
/// label (or the shape it labels) as well.
pub proof fn lemma_step_passes_label(
    s: Seq<ElementView>,
    boundary: int,
    editing: Option<Seq<char>>,
    forward: bool,
    c: int,
)
    requires
        0 <= boundary < s.len(),
        forward ==> first_such(s.len() as int, in_scope_after(s, editing, boundary)) == Some(c),
        !forward ==> last_such(boundary, in_scope(s, editing)) == Some(c),
        (editing is Some && s[boundary].group_ids == s[c].group_ids) || group_at(s[c].group_ids, editing)
            is None,
    ensures
        target(s, boundary, editing, forward) is Some,
        ({
            let t = target(s, boundary, editing, forward).unwrap();
            &&& 0 <= t < s.len()
            &&& if forward {
                c <= t
            } else {
                t <= c
            }
            &&& forall|o: int|
                0 <= o < s.len() && partner_id(s[c]) == Some(#[trigger] s[o].id) && (forall|k: int|
                    0 <= k < o ==> s[k].id != s[o].id) ==> if forward {
                    o <= t
                } else {
                    t <= o
                }
        }),
{
    if forward {
        lemma_first_such(s.len() as int, in_scope_after(s, editing, boundary));
    } else {
        lemma_last_such(boundary, in_scope(s, editing));
    }
    match partner_id(s[c]) {
        Some(id) => {
            lemma_first_such(s.len() as int, has_id(s, id));
            assert forall|o: int|
                0 <= o < s.len() && partner_id(s[c]) == Some(#[trigger] s[o].id) && (forall|k: int|
                    0 <= k < o ==> s[k].id != s[o].id) implies first_such(s.len() as int, has_id(s, id))
                == Some(o) by {
                assert(has_id(s, id)(o));
                assert forall|k: int| 0 <= k < o implies !#[trigger] has_id(s, id)(k) by {}
                lemma_first_found(s.len() as int, has_id(s, id), o);
            }
        },
        None => {},
    }
}

} // verus!
