//! What align and distribute move as one.

use vstd::prelude::*;
use crate::element::{is_text, contains_id, frame_kind, idset, is_frame, same_text, scene, strv, DrawElement, ElementView};
use crate::group::{group_at, lemma_filter_step, selected_group_for};
use crate::clipboard::{indices, ints};

verus! {

/// The ways to line a selection up.
#[derive(Clone, Copy, Debug, PartialEq, Eq, Structural)]
pub enum AlignMode {
    Left,
    CenterX,
    Right,
    Top,
    CenterY,
    Bottom,
}

/// What keys a unit: the group a click selects, or the element itself.
pub enum UnitKey {
    Group(Seq<char>),
    Alone(int),
}

// ------------------------------------------------------------------ the model

/// The alignment a name stands for.
pub open spec fn align_named(value: Seq<char>) -> Option<AlignMode> {
    if value == "left"@ {
        Some(AlignMode::Left)
    } else if value == "centerX"@ {
        Some(AlignMode::CenterX)
    } else if value == "right"@ {
        Some(AlignMode::Right)
    } else if value == "top"@ {
        Some(AlignMode::Top)
    } else if value == "centerY"@ {
        Some(AlignMode::CenterY)
    } else if value == "bottom"@ {
        Some(AlignMode::Bottom)
    } else {
        None
    }
}

/// The key of the element at `i`.
pub open spec fn unit_key(s: Seq<ElementView>, editing: Option<Seq<char>>, i: int) -> UnitKey {
    match group_at(s[i].group_ids, editing) {
        Some(g) => UnitKey::Group(g),
        None => UnitKey::Alone(i),
    }
}

/// Whether the element at `i` takes part: selected, live, and nobody's label.
pub open spec fn takes_part(s: Seq<ElementView>, ids: Set<Seq<char>>, i: int) -> bool {
    ids.contains(s[i].id) && !s[i].is_deleted && s[i].container_id is None
}

/// Picks the first member of each unit.
pub open spec fn opens_unit(s: Seq<ElementView>, ids: Set<Seq<char>>, editing: Option<Seq<char>>) -> spec_fn(
    int,
) -> bool {
    |i: int|
        takes_part(s, ids, i) && forall|j: int|
            0 <= j < i && takes_part(s, ids, j) ==> unit_key(s, editing, j) != unit_key(s, editing, i)
}

/// Picks the members of the unit keyed `key`.
pub open spec fn in_unit(s: Seq<ElementView>, ids: Set<Seq<char>>, editing: Option<Seq<char>>, key: UnitKey) -> spec_fn(
    int,
) -> bool {
    |i: int| takes_part(s, ids, i) && unit_key(s, editing, i) == key
}

/// The units at the level `editing`, in the order each was first met, each with its
/// members' indices in board order.
pub open spec fn cut_units(s: Seq<ElementView>, ids: Set<Seq<char>>, editing: Option<Seq<char>>) -> Seq<
    Seq<int>,
> {
    let firsts = indices(s.len() as int).filter(opens_unit(s, ids, editing));
    Seq::new(
        firsts.len(),
        |t: int| indices(s.len() as int).filter(in_unit(s, ids, editing, unit_key(s, editing, firsts[t]))),
    )
}

/// The key of the first unit.
pub open spec fn first_unit_key(s: Seq<ElementView>, ids: Set<Seq<char>>, editing: Option<Seq<char>>) -> UnitKey {
    unit_key(s, editing, indices(s.len() as int).filter(opens_unit(s, ids, editing))[0])
}

/// What align and distribute move as one: each group a click at this level selects, or
/// an element on its own; a selection that is exactly one group is cut one level further
/// in. Nothing when a frame takes part.
pub open spec fn units_of(s: Seq<ElementView>, ids: Set<Seq<char>>, editing: Option<Seq<char>>) -> Seq<Seq<int>> {
    if exists|i: int| 0 <= i < s.len() && #[trigger] takes_part(s, ids, i) && frame_kind(s[i]) {
        Seq::empty()
    } else {
        let keyed = cut_units(s, ids, editing);
        if keyed.len() == 1 && first_unit_key(s, ids, editing) is Group {
            cut_units(s, ids, Some(first_unit_key(s, ids, editing)->Group_0))
        } else {
            keyed
        }
    }
}

/// Units as integer indices.
pub open spec fn units_as_values(u: Seq<Vec<usize>>) -> Seq<Seq<int>> {
    Seq::new(u.len(), |t: int| ints(u[t]@))
}

} // verus!

verus! {

impl AlignMode {
    /// The alignment a plain name stands for; `None` for anything else.
    pub fn parse(value: &str) -> (r: Option<Self>)
        ensures
            r == align_named(value@),
    {
        if is_text(value, "left") {
            Some(AlignMode::Left)
        } else if is_text(value, "centerX") {
            Some(AlignMode::CenterX)
        } else if is_text(value, "right") {
            Some(AlignMode::Right)
        } else if is_text(value, "top") {
            Some(AlignMode::Top)
        } else if is_text(value, "centerY") {
            Some(AlignMode::CenterY)
        } else if is_text(value, "bottom") {
            Some(AlignMode::Bottom)
        } else {
            None
        }
    }
}

/// An exec unit key.
enum UnitTag {
    Group(String),
    Alone(usize),
}

impl UnitTag {
    spec fn value(&self) -> UnitKey {
        match self {
            UnitTag::Group(g) => UnitKey::Group(g@),
            UnitTag::Alone(i) => UnitKey::Alone(*i as int),
        }
    }

    fn same(&self, other: &Self) -> (r: bool)
        ensures
            r == (self.value() == other.value()),
    {
        match (self, other) {
            (UnitTag::Group(a), UnitTag::Group(b)) => same_text(a, b),
            (UnitTag::Alone(a), UnitTag::Alone(b)) => *a == *b,
            _ => false,
        }
    }
}

/// The units at the level `editing`.
fn cut(elements: &[DrawElement], part: &Vec<bool>, editing: Option<&str>, Ghost(ids): Ghost<Set<Seq<char>>>) -> (r: Vec<Vec<usize>>)
    requires
        part.len() == elements.len(),
        forall|i: int| 0 <= i < part.len() ==> #[trigger] part@[i] == takes_part(scene(elements@), ids, i),
    ensures
        units_as_values(r@) == cut_units(scene(elements@), ids, strv(editing)),
{
    let ghost s = scene(elements@);
    let ghost ed = strv(editing);
    let mut keys: Vec<UnitTag> = Vec::new();
    let mut i: usize = 0;
    while i < elements.len()
        invariant
            i <= elements.len(),
            s == scene(elements@),
            ed == strv(editing),
            keys.len() == i,
            forall|j: int| 0 <= j < i ==> #[trigger] keys@[j].value() == unit_key(s, ed, j),
        decreases elements.len() - i,
    {
        let key = match selected_group_for(&elements[i], editing) {
            Some(g) => UnitTag::Group(g.clone()),
            None => UnitTag::Alone(i),
        };
        keys.push(key);
        i = i + 1;
    }
    let ghost all = indices(s.len() as int);
    let ghost op = opens_unit(s, ids, ed);
    let mut out: Vec<Vec<usize>> = Vec::new();
    let mut firsts: Vec<usize> = Vec::new();
    let mut k: usize = 0;
    while k < elements.len()
        invariant
            k <= elements.len(),
            keys.len() == elements.len(),
            part.len() == elements.len(),
            s == scene(elements@),
            ed == strv(editing),
            all == indices(s.len() as int),
            op == opens_unit(s, ids, ed),
            forall|i: int| 0 <= i < part.len() ==> #[trigger] part@[i] == takes_part(s, ids, i),
            forall|j: int| 0 <= j < keys.len() ==> #[trigger] keys@[j].value() == unit_key(s, ed, j),
            ints(firsts@) == all.take(k as int).filter(op),
            out.len() == firsts.len(),
            forall|t: int| 0 <= t < out.len() ==> ints(#[trigger] out@[t]@) == all.filter(in_unit(s, ids, ed, unit_key(s, ed, firsts@[t] as int))),
        decreases elements.len() - k,
    {
        proof {
            lemma_filter_step(all, op, k as int);
        }
        assert(all[k as int] == k as int);
        if part[k] {
            let mut fresh = true;
            let mut q: usize = 0;
            while q < k
                invariant
                    q <= k < keys.len(),
                    keys.len() == part.len(),
                    s == scene(elements@),
                    ed == strv(editing),
                    forall|i: int| 0 <= i < part.len() ==> #[trigger] part@[i] == takes_part(s, ids, i),
                    forall|j: int| 0 <= j < keys.len() ==> #[trigger] keys@[j].value() == unit_key(s, ed, j),
                    fresh == forall|j: int| 0 <= j < q && takes_part(s, ids, j) ==> unit_key(s, ed, j) != unit_key(s, ed, k as int),
                decreases k - q,
            {
                if part[q] && keys[q].same(&keys[k]) {
                    fresh = false;
                }
                q = q + 1;
            }
            if fresh {
                assert(op(k as int));
                let ghost key = keys@[k as int].value();
                let ghost p = in_unit(s, ids, ed, key);
                let mut members: Vec<usize> = Vec::new();
                let mut j: usize = 0;
                while j < elements.len()
                    invariant
                        j <= elements.len(),
                        keys.len() == elements.len(),
                        part.len() == elements.len(),
                        k < keys.len(),
                        s == scene(elements@),
                        ed == strv(editing),
                        key == keys@[k as int].value(),
                        all == indices(s.len() as int),
                        p == in_unit(s, ids, ed, key),
                        forall|i: int| 0 <= i < part.len() ==> #[trigger] part@[i] == takes_part(s, ids, i),
                        forall|q: int| 0 <= q < keys.len() ==> #[trigger] keys@[q].value() == unit_key(s, ed, q),
                        ints(members@) == all.take(j as int).filter(p),
                    decreases elements.len() - j,
                {
                    proof {
                        lemma_filter_step(all, p, j as int);
                    }
                    assert(all[j as int] == j as int);
                    if part[j] && keys[j].same(&keys[k]) {
                        members.push(j);
                        assert(ints(members@) =~= all.take(j + 1).filter(p));
                    } else {
                        assert(ints(members@) =~= all.take(j + 1).filter(p));
                    }
                    j = j + 1;
                }
                assert(all.take(j as int) =~= all);
                out.push(members);
                firsts.push(k);
                assert(ints(firsts@) =~= all.take(k + 1).filter(op));
            } else {
                assert(!op(k as int));
                assert(ints(firsts@) =~= all.take(k + 1).filter(op));
            }
        } else {
            assert(!op(k as int));
            assert(ints(firsts@) =~= all.take(k + 1).filter(op));
        }
        k = k + 1;
    }
    assert(all.take(k as int) =~= all);
    proof {
        let firsts_v = all.filter(op);
        assert forall|t: int| 0 <= t < out.len() implies firsts@[t] as int == firsts_v[t] by {
            assert(ints(firsts@)[t] == firsts@[t] as int);
        }
        assert(units_as_values(out@) =~= cut_units(s, ids, ed));
    }
    out
}

/// What align and distribute move as one, as indices into `elements`: each group a click
/// at this level would select, or an element on its own. A selection that is exactly one
/// group is cut one level further in, so what lines up is what that group holds. A label
/// is no unit. Empty when a frame is among `ids`.
pub fn units(elements: &[DrawElement], ids: &Vec<String>, editing: Option<&str>) -> (r: Vec<Vec<usize>>)
    ensures
        units_as_values(r@) == units_of(scene(elements@), idset(ids@), strv(editing)),
{
    let ghost s = scene(elements@);
    let ghost sel = idset(ids@);
    let mut part: Vec<bool> = Vec::new();
    let mut has_frame = false;
    let mut i: usize = 0;
    while i < elements.len()
        invariant
            i <= elements.len(),
            s == scene(elements@),
            sel == idset(ids@),
            part.len() == i,
            forall|j: int| 0 <= j < i ==> #[trigger] part@[j] == takes_part(s, sel, j),
            has_frame == exists|j: int| 0 <= j < i && #[trigger] takes_part(s, sel, j) && frame_kind(s[j]),
        decreases elements.len() - i,
    {
        let element = &elements[i];
        let takes = contains_id(ids, &element.id) && !element.is_deleted && element.container_id.is_none();
        assert(takes == takes_part(s, sel, i as int));
        if takes && is_frame(element) {
            has_frame = true;
        }
        part.push(takes);
        i = i + 1;
    }
    if has_frame {
        let r: Vec<Vec<usize>> = Vec::new();
        assert(units_as_values(r@) =~= Seq::<Seq<int>>::empty());
        return r;
    }
    let keyed = cut(elements, &part, editing, Ghost(sel));
    if keyed.len() == 1 {
        proof {
            broadcast use vstd::seq_lib::group_filter_ensures;

            let ed = strv(editing);
            let all = indices(s.len() as int);
            let op = opens_unit(s, sel, ed);
            let firsts = all.filter(op);
            crate::clipboard::lemma_filtered_indices(s.len() as int, op);
            assert(units_as_values(keyed@).len() == 1);
            let f0 = firsts[0];
            assert(op(f0));
            let p = in_unit(s, sel, ed, unit_key(s, ed, f0));
            assert(all[f0] == f0);
            assert(p(all[f0]));
            assert(all.filter(p).contains(all[f0]));
            assert(units_as_values(keyed@)[0] == all.filter(p));
            assert(ints(keyed@[0]@) == all.filter(p));
            assert(keyed@[0]@.len() > 0);
            assert(p(all.filter(p)[0]));
            crate::clipboard::lemma_filtered_indices(s.len() as int, p);
            assert(ints(keyed@[0]@)[0] == keyed@[0]@[0] as int);
            assert(unit_key(s, ed, keyed@[0]@[0] as int) == first_unit_key(s, sel, ed));
        }
        let first = keyed[0][0];
        match selected_group_for(&elements[first], editing) {
            Some(g) => {
                return cut(elements, &part, Some(g.as_str()), Ghost(sel));
            },
            None => {},
        }
    }
    keyed
}

} // verus!

verus! {

/// At any level the units share out the elements that take part: each is in a unit, each
/// unit holds only such elements, and no element is in two units.
pub proof fn lemma_cut_units_partition(s: Seq<ElementView>, ids: Set<Seq<char>>, level: Option<Seq<char>>)
    ensures
        forall|i: int|
            0 <= i < s.len() && #[trigger] takes_part(s, ids, i) ==> exists|t: int|
                0 <= t < cut_units(s, ids, level).len() && #[trigger] cut_units(s, ids, level)[t].contains(i),
        forall|t: int, m: int|
            0 <= t < cut_units(s, ids, level).len() && 0 <= m < cut_units(s, ids, level)[t].len()
                ==> takes_part(s, ids, #[trigger] cut_units(s, ids, level)[t][m]),
        forall|t1: int, t2: int, m1: int, m2: int|
            0 <= t1 < t2 < cut_units(s, ids, level).len() && 0 <= m1 < cut_units(s, ids, level)[t1].len()
                && 0 <= m2 < cut_units(s, ids, level)[t2].len() ==> #[trigger] cut_units(s, ids, level)[t1][m1]
                != #[trigger] cut_units(s, ids, level)[t2][m2],
{
    broadcast use vstd::seq_lib::group_filter_ensures;

    let n = s.len() as int;
    let all = indices(n);
    let op = opens_unit(s, ids, level);
    let firsts = all.filter(op);
    let cut = cut_units(s, ids, level);
    crate::clipboard::lemma_filtered_indices(n, op);
    assert forall|i: int| 0 <= i < s.len() && #[trigger] takes_part(s, ids, i) implies exists|t: int|
        0 <= t < cut.len() && #[trigger] cut[t].contains(i) by {
        let key = unit_key(s, level, i);
        let p = in_unit(s, ids, level, key);
        crate::group::lemma_first_such(n, p);
        assert(p(i));
        let k = crate::group::first_such(n, p).unwrap();
        assert forall|j: int| 0 <= j < k && takes_part(s, ids, j) implies unit_key(s, level, j) != unit_key(
            s,
            level,
            k,
        ) by {
            assert(!p(j));
        }
        assert(op(k));
        assert(all[k] == k);
        assert(firsts.contains(all[k]));
        let t = choose|t: int| 0 <= t < firsts.len() && firsts[t] == k;
        assert(all[i] == i);
        assert(all.filter(p).contains(all[i]));
        assert(cut[t] == all.filter(p));
        assert(cut[t].contains(i));
    }
    assert forall|t: int, m: int| 0 <= t < cut.len() && 0 <= m < cut[t].len() implies takes_part(
        s,
        ids,
        #[trigger] cut[t][m],
    ) by {
        let p = in_unit(s, ids, level, unit_key(s, level, firsts[t]));
        assert(p(all.filter(p)[m]));
    }
    assert forall|t1: int, t2: int, m1: int, m2: int|
        0 <= t1 < t2 < cut.len() && 0 <= m1 < cut[t1].len() && 0 <= m2 < cut[t2].len() implies #[trigger] cut[t1][m1]
        != #[trigger] cut[t2][m2] by {
        let k1 = unit_key(s, level, firsts[t1]);
        let k2 = unit_key(s, level, firsts[t2]);
        let p1 = in_unit(s, ids, level, k1);
        let p2 = in_unit(s, ids, level, k2);
        assert(p1(all.filter(p1)[m1]));
        assert(p2(all.filter(p2)[m2]));
        assert(firsts[t1] < firsts[t2]);
        assert(op(firsts[t2]));
        assert(op(firsts[t1]));
        assert(takes_part(s, ids, firsts[t1]));
        assert(k1 != k2);
    }
}

/// The units align and distribute move share out the elements that take part, when no
/// frame does: each is in a unit, each unit holds only such elements, and no element is
/// in two units.
pub proof fn lemma_units_partition(s: Seq<ElementView>, ids: Set<Seq<char>>, editing: Option<Seq<char>>)
    requires
        forall|i: int| 0 <= i < s.len() && #[trigger] takes_part(s, ids, i) ==> !frame_kind(s[i]),
    ensures
        forall|i: int|
            0 <= i < s.len() && #[trigger] takes_part(s, ids, i) ==> exists|t: int|
                0 <= t < units_of(s, ids, editing).len() && #[trigger] units_of(s, ids, editing)[t].contains(i),
        forall|t: int, m: int|
            0 <= t < units_of(s, ids, editing).len() && 0 <= m < units_of(s, ids, editing)[t].len()
                ==> takes_part(s, ids, #[trigger] units_of(s, ids, editing)[t][m]),
        forall|t1: int, t2: int, m1: int, m2: int|
            0 <= t1 < t2 < units_of(s, ids, editing).len() && 0 <= m1 < units_of(s, ids, editing)[t1].len()
                && 0 <= m2 < units_of(s, ids, editing)[t2].len() ==> #[trigger] units_of(s, ids, editing)[t1][m1]
                != #[trigger] units_of(s, ids, editing)[t2][m2],
{
    assert(!exists|i: int| 0 <= i < s.len() && #[trigger] takes_part(s, ids, i) && frame_kind(s[i]));
    let keyed = cut_units(s, ids, editing);
    let level = if keyed.len() == 1 && first_unit_key(s, ids, editing) is Group {
        Some(first_unit_key(s, ids, editing)->Group_0)
    } else {
        editing
    };
    lemma_cut_units_partition(s, ids, level);
    let u = units_of(s, ids, editing);
    assert(u == cut_units(s, ids, level));
    assert forall|i: int| 0 <= i < s.len() && #[trigger] takes_part(s, ids, i) implies exists|t: int|
        0 <= t < u.len() && #[trigger] u[t].contains(i) by {
        let t = choose|t: int| 0 <= t < cut_units(s, ids, level).len() && #[trigger] cut_units(s, ids, level)[t].contains(i);
        assert(u[t].contains(i));
    }
}

} // verus!
