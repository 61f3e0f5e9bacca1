//! Flipping a selection: which elements turn, and what their bindings keep.
//!
//! The mirror itself is arithmetic on coordinates and stays with the caller; this module
//! decides what is flipped, whether the selection only turns its arrows round, and which
//! arrow ends stay bound.

use vstd::prelude::*;
use crate::element::{contains_id, is_text, idset, ov, scene, DrawElement, DrawElementType, ElementView, add_id, copy_opt, distinct};
use crate::group::{collected, lemma_collected_step, lemma_filter_step};
use crate::clipboard::{indices, ints};

verus! {

/// The axis a flip mirrors across.
#[derive(Clone, Copy, Debug, PartialEq, Eq, Structural)]
pub enum FlipAxis {
    Horizontal,
    Vertical,
}

/// What a flip does to a selection.
pub struct FlipPlan {
    /// The indices of the elements that flip, in board order.
    pub targets: Vec<usize>,
    /// Every target is a bound arrow: they turn round and nothing moves.
    pub turn_only: bool,
    /// For each target: whether its start stays bound (its shape flips with it).
    pub keep_start: Vec<bool>,
    /// For each target: whether its end stays bound.
    pub keep_end: Vec<bool>,
    /// The labels on the targets that are lines or arrows: they count in the box the
    /// flip mirrors across.
    pub words: Vec<String>,
    /// The targets as the flip leaves their ties and heads, in board order: when they only
    /// turn, with their resolved heads traded; otherwise each arrow lets go of the ends
    /// bound to shapes that do not flip with it. Coordinates are the caller's.
    pub patches: Vec<DrawElement>,
}

// ------------------------------------------------------------------ the model

/// The name of an axis.
pub open spec fn axis_name(axis: FlipAxis) -> Seq<char> {
    match axis {
        FlipAxis::Horizontal => "horizontal"@,
        FlipAxis::Vertical => "vertical"@,
    }
}

/// The axis a name stands for.
pub open spec fn axis_named(value: Seq<char>) -> Option<FlipAxis> {
    if value == "horizontal"@ {
        Some(FlipAxis::Horizontal)
    } else if value == "vertical"@ {
        Some(FlipAxis::Vertical)
    } else {
        None
    }
}

/// A line or an arrow.
pub open spec fn linear(e: ElementView) -> bool {
    e.kind == DrawElementType::Line || e.kind == DrawElementType::Arrow
}

/// An arrow bound at one end or both.
pub open spec fn bound_arrow(e: ElementView) -> bool {
    e.kind == DrawElementType::Arrow && (e.start_binding is Some || e.end_binding is Some)
}

/// Whether the element at `i` flips: selected, live, and nobody's label.
pub open spec fn flips(s: Seq<ElementView>, ids: Set<Seq<char>>) -> spec_fn(int) -> bool {
    |i: int| ids.contains(s[i].id) && !s[i].is_deleted && s[i].container_id is None
}

/// The ids of what flips.
pub open spec fn flipped_ids(s: Seq<ElementView>, ids: Set<Seq<char>>) -> Set<Seq<char>> {
    collected(s.len() as int, flips(s, ids), |i: int| s[i].id)
}

/// Whether an end bound to `b` stays bound: its shape flips too.
pub open spec fn keeps(b: Option<Seq<char>>, flipped: Set<Seq<char>>) -> bool {
    match b {
        Some(id) => flipped.contains(id),
        None => false,
    }
}

/// A target's ties after a flip that mirrors it: an arrow keeps an end only where `keep`
/// says so.
pub open spec fn rebound(e: ElementView, keep_start: bool, keep_end: bool) -> ElementView {
    if e.kind == DrawElementType::Arrow {
        ElementView {
            start_binding: if keep_start {
                e.start_binding
            } else {
                None
            },
            end_binding: if keep_end {
                e.end_binding
            } else {
                None
            },
            ..e
        }
    } else {
        e
    }
}

/// An arrow turned round: its resolved heads, `start` and `end`, trade ends.
pub open spec fn turned(e: ElementView, start: Option<Seq<char>>, end: Option<Seq<char>>) -> ElementView {
    ElementView { start_arrowhead: end, end_arrowhead: start, ..e }
}

/// The labels on the linear targets.
pub open spec fn words_of(s: Seq<ElementView>, ids: Set<Seq<char>>) -> Set<Seq<char>> {
    collected(
        s.len() as int,
        |i: int| flips(s, ids)(i) && linear(s[i]) && s[i].bound_text_id is Some,
        |i: int| s[i].bound_text_id.unwrap(),
    )
}

} // verus!

verus! {

impl FlipAxis {
    /// The axis a plain name stands for; `None` for anything else.
    pub fn parse(value: &str) -> (r: Option<Self>)
        ensures
            r == axis_named(value@),
    {
        if is_text(value, "horizontal") {
            Some(FlipAxis::Horizontal)
        } else if is_text(value, "vertical") {
            Some(FlipAxis::Vertical)
        } else {
            None
        }
    }

    /// The axis's name.
    pub fn as_str(self) -> (r: &'static str)
        ensures
            r@ == axis_name(self),
    {
        match self {
            FlipAxis::Horizontal => "horizontal",
            FlipAxis::Vertical => "vertical",
        }
    }
}

/// Whether an end bound to `b` stays bound.
fn keeps_end(b: &Option<String>, flipped: &Vec<String>) -> (r: bool)
    ensures
        r == keeps(ov(*b), idset(flipped@)),
{
    match b {
        Some(id) => contains_id(flipped, id),
        None => false,
    }
}

/// What flipping `ids` does: the live, unlabelled elements of `ids` flip; when all of them
/// are bound arrows they only turn round, their resolved heads trading ends (`heads`
/// holds each element's resolved heads, start then end, as the painter resolves them);
/// otherwise an arrow end bound to a shape that flips with it stays bound, and any other
/// bound end lets go.
pub fn flip_elements(
    elements: &[DrawElement],
    ids: &Vec<String>,
    heads: &[(Option<String>, Option<String>)],
) -> (r: FlipPlan)
    requires
        heads.len() == elements.len(),
    ensures
        ints(r.targets@) == indices(elements.len() as int).filter(flips(scene(elements@), idset(ids@))),
        r.keep_start.len() == r.targets.len(),
        r.keep_end.len() == r.targets.len(),
        r.targets.len() > 0 ==> r.targets@[0] < elements.len(),
        forall|t: int| 0 <= t < r.targets.len() ==> #[trigger] r.targets@[t] < elements.len(),
        forall|t: int|
            0 <= t < r.targets.len() ==> #[trigger] r.keep_start@[t] == keeps(
                scene(elements@)[r.targets@[t] as int].start_binding,
                flipped_ids(scene(elements@), idset(ids@)),
            ) && r.keep_end@[t] == keeps(
                scene(elements@)[r.targets@[t] as int].end_binding,
                flipped_ids(scene(elements@), idset(ids@)),
            ),
        r.turn_only == (r.targets.len() > 0 && forall|t: int|
            0 <= t < r.targets.len() ==> bound_arrow(#[trigger] scene(elements@)[r.targets@[t] as int])),
        r.turn_only == (r.targets.len() > 0 && forall|t: int|
            0 <= t < r.targets.len() ==> (#[trigger] scene(elements@)[r.targets@[t] as int]).kind
                == DrawElementType::Arrow && (scene(elements@)[r.targets@[t] as int].start_binding is Some
                || scene(elements@)[r.targets@[t] as int].end_binding is Some)),
        distinct(r.words@),
        idset(r.words@) == words_of(scene(elements@), idset(ids@)),
        r.patches.len() == r.targets.len(),
        forall|t: int|
            0 <= t < r.targets.len() ==> (#[trigger] r.patches@[t])@ == if r.turn_only {
                turned(
                    scene(elements@)[r.targets@[t] as int],
                    ov(heads@[r.targets@[t] as int].0),
                    ov(heads@[r.targets@[t] as int].1),
                )
            } else {
                rebound(scene(elements@)[r.targets@[t] as int], r.keep_start@[t], r.keep_end@[t])
            },
{
    let ghost s = scene(elements@);
    let ghost sel = idset(ids@);
    let ghost all = indices(elements.len() as int);
    let ghost p = flips(s, sel);
    let ghost f = |i: int| s[i].id;
    let ghost wp = |i: int| flips(s, sel)(i) && linear(s[i]) && s[i].bound_text_id is Some;
    let ghost wf = |i: int| s[i].bound_text_id.unwrap();
    let mut targets: Vec<usize> = Vec::new();
    let mut flipped: Vec<String> = Vec::new();
    let mut words: Vec<String> = Vec::new();
    let mut turn_only = true;
    let mut i: usize = 0;
    while i < elements.len()
        invariant
            i <= elements.len(),
            s == scene(elements@),
            sel == idset(ids@),
            all == indices(elements.len() as int),
            p == flips(s, sel),
            f == (|i: int| s[i].id),
            wp == (|i: int| flips(s, sel)(i) && linear(s[i]) && s[i].bound_text_id is Some),
            wf == (|i: int| s[i].bound_text_id.unwrap()),
            ints(targets@) == all.take(i as int).filter(p),
            forall|t: int| 0 <= t < targets.len() ==> #[trigger] targets@[t] < i,
            distinct(flipped@),
            idset(flipped@) == collected(i as int, p, f),
            distinct(words@),
            idset(words@) == collected(i as int, wp, wf),
            turn_only == forall|t: int| 0 <= t < targets.len() ==> bound_arrow(#[trigger] s[targets@[t] as int]),
        decreases elements.len() - i,
    {
        proof {
            lemma_filter_step(all, p, i as int);
            lemma_collected_step(i as int, p, f);
            lemma_collected_step(i as int, wp, wf);
        }
        assert(all[i as int] == i as int);
        let element = &elements[i];
        if contains_id(ids, &element.id) && !element.is_deleted && element.container_id.is_none() {
            let arrow = element.kind == DrawElementType::Arrow && (element.start_binding.is_some()
                || element.end_binding.is_some());
            assert(s[i as int] == elements@[i as int]@);
            assert(arrow == bound_arrow(s[i as int]));
            let ghost was = turn_only;
            if !arrow {
                turn_only = false;
            }
            let ghost before = targets@;
            targets.push(i);
            assert(ints(targets@) =~= all.take(i + 1).filter(p));
            assert(targets@[targets.len() - 1] == i);
            assert forall|t: int| 0 <= t < targets.len() - 1 implies #[trigger] targets@[t] == before[t] by {}
            proof {
                if turn_only {
                    assert forall|t: int| 0 <= t < targets.len() implies bound_arrow(
                        #[trigger] s[targets@[t] as int],
                    ) by {
                        if t < targets.len() - 1 {
                            assert(targets@[t] == before[t]);
                            assert(bound_arrow(s[before[t] as int]));
                        }
                    }
                } else if !was {
                    let t0 = choose|t: int| 0 <= t < before.len() && !bound_arrow(#[trigger] s[before[t] as int]);
                    assert(targets@[t0] == before[t0]);
                    assert(!bound_arrow(s[targets@[t0] as int]));
                } else {
                    assert(!bound_arrow(s[targets@[targets.len() - 1] as int]));
                }
            }
            add_id(&mut flipped, element.id.clone());
            let lin = element.kind == DrawElementType::Line || element.kind == DrawElementType::Arrow;
            if lin {
                match &element.bound_text_id {
                    Some(w) => {
                        add_id(&mut words, w.clone());
                    },
                    None => {},
                }
            }
        } else {
            assert(ints(targets@) =~= all.take(i + 1).filter(p));
        }
        i = i + 1;
    }
    assert(all.take(i as int) =~= all);
    let ghost fl = idset(flipped@);
    assert(fl == flipped_ids(s, sel));
    let mut keep_start: Vec<bool> = Vec::new();
    let mut keep_end: Vec<bool> = Vec::new();
    let mut t: usize = 0;
    while t < targets.len()
        invariant
            t <= targets.len(),
            s == scene(elements@),
            fl == idset(flipped@),
            forall|q: int| 0 <= q < targets.len() ==> #[trigger] targets@[q] < elements.len(),
            keep_start.len() == t,
            keep_end.len() == t,
            forall|q: int|
                0 <= q < t ==> #[trigger] keep_start@[q] == keeps(s[targets@[q] as int].start_binding, fl),
            forall|q: int|
                0 <= q < t ==> #[trigger] keep_end@[q] == keeps(s[targets@[q] as int].end_binding, fl),
        decreases targets.len() - t,
    {
        let element = &elements[targets[t]];
        assert(s[targets@[t as int] as int] == element@);
        let a = keeps_end(&element.start_binding, &flipped);
        let b = keeps_end(&element.end_binding, &flipped);
        assert(a == keeps(s[targets@[t as int] as int].start_binding, fl));
        assert(b == keeps(s[targets@[t as int] as int].end_binding, fl));
        let ghost old_start = keep_start@;
        let ghost old_end = keep_end@;
        keep_start.push(a);
        keep_end.push(b);
        assert forall|q: int| 0 <= q <= t implies #[trigger] keep_start@[q] == keeps(
            s[targets@[q] as int].start_binding,
            fl,
        ) by {
            if q < t {
                assert(keep_start@[q] == old_start[q]);
            }
        }
        assert forall|q: int| 0 <= q <= t implies #[trigger] keep_end@[q] == keeps(
            s[targets@[q] as int].end_binding,
            fl,
        ) by {
            if q < t {
                assert(keep_end@[q] == old_end[q]);
            }
        }
        t = t + 1;
    }
    let only_turn = turn_only && t > 0;
    let mut patches: Vec<DrawElement> = Vec::new();
    let mut q: usize = 0;
    while q < targets.len()
        invariant
            q <= targets.len(),
            s == scene(elements@),
            keep_start.len() == targets.len(),
            keep_end.len() == targets.len(),
            forall|m: int| 0 <= m < targets.len() ==> #[trigger] targets@[m] < elements.len(),
            heads.len() == elements.len(),
            patches.len() == q,
            forall|m: int|
                0 <= m < q ==> (#[trigger] patches@[m])@ == if only_turn {
                    turned(s[targets@[m] as int], ov(heads@[targets@[m] as int].0), ov(heads@[targets@[m] as int].1))
                } else {
                    rebound(s[targets@[m] as int], keep_start@[m], keep_end@[m])
                },
        decreases targets.len() - q,
    {
        let element = &elements[targets[q]];
        assert(s[targets@[q as int] as int] == element@);
        let mut next = element.duplicate();
        if only_turn {
            next.start_arrowhead = copy_opt(&heads[targets[q]].1);
            next.end_arrowhead = copy_opt(&heads[targets[q]].0);
        } else if element.kind == DrawElementType::Arrow {
            if !keep_start[q] {
                next.start_binding = None;
            }
            if !keep_end[q] {
                next.end_binding = None;
            }
        }
        assert(next@ =~= if only_turn {
            turned(s[targets@[q as int] as int], ov(heads@[targets@[q as int] as int].0), ov(heads@[targets@[q as int] as int].1))
        } else {
            rebound(s[targets@[q as int] as int], keep_start@[q as int], keep_end@[q as int])
        });
        patches.push(next);
        q = q + 1;
    }
    FlipPlan { targets, turn_only: only_turn, keep_start, keep_end, words, patches }
}

} // verus!

verus! {

/// An axis's name reads back as that axis.
pub proof fn lemma_axis_name_round_trip(axis: FlipAxis)
    ensures
        axis_named(axis_name(axis)) == Some(axis),
{
    reveal_strlit("horizontal");
    reveal_strlit("vertical");
    assert("horizontal"@.len() == 10);
    assert("vertical"@.len() == 8);
}

/// A bound arrow only turns round in a flip whichever of its ends is bound: an arrow bound
/// at its start, or at its end alone, counts; anything else does not.
pub proof fn lemma_bound_at_either_end(e: ElementView)
    ensures
        e.kind == DrawElementType::Arrow && e.start_binding is Some ==> bound_arrow(e),
        e.kind == DrawElementType::Arrow && e.end_binding is Some ==> bound_arrow(e),
        bound_arrow(e) ==> e.kind == DrawElementType::Arrow && (e.start_binding is Some
            || e.end_binding is Some),
{
}

/// A mirrored arrow stays bound only where its shape flips with it: each end bound to a
/// shape that flips keeps that binding, any other end lets go, and everything else about
/// the target is untouched; what is not an arrow keeps its ties.
pub proof fn lemma_mirrored_ties(e: ElementView, flipped: Set<Seq<char>>)
    ensures
        ({
            let r = rebound(e, keeps(e.start_binding, flipped), keeps(e.end_binding, flipped));
            &&& e.kind == DrawElementType::Arrow ==> r.start_binding == (if e.start_binding is Some
                && flipped.contains(e.start_binding.unwrap()) {
                e.start_binding
            } else {
                None
            })
            &&& e.kind == DrawElementType::Arrow ==> r.end_binding == (if e.end_binding is Some
                && flipped.contains(e.end_binding.unwrap()) {
                e.end_binding
            } else {
                None
            })
            &&& r == (ElementView { start_binding: r.start_binding, end_binding: r.end_binding, ..e })
            &&& e.kind != DrawElementType::Arrow ==> r == e
        }),
{
}

/// A turned arrow trades its resolved heads and changes nothing else.
pub proof fn lemma_turn_trades_heads(e: ElementView, start: Option<Seq<char>>, end: Option<Seq<char>>)
    ensures
        turned(e, start, end).start_arrowhead == end,
        turned(e, start, end).end_arrowhead == start,
        turned(e, start, end) == (ElementView { start_arrowhead: end, end_arrowhead: start, ..e }),
{
}

} // verus!
