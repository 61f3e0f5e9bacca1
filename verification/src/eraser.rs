//! The eraser: what a sweep marks, and what erasing the marks takes.
//!
//! What the sweep touches is geometry and is handed in. Everything taken with it is
//! decided here: each touched element's whole outermost group, everything a touched frame
//! holds, and a container with its label either way round. Erasing then takes what is
//! marked, what a marked frame holds and every label of what goes, and lets go of the
//! arrow ends bound to anything that goes.

use vstd::prelude::*;
use crate::delete::{named, position_named};
use crate::element::{add_id, contains_id, distinct, frame_kind, idset, is_frame, scene, sv, DrawElement,
    ElementView};
use crate::group::{collected, lemma_collected_step, shares};

verus! {

// ------------------------------------------------------------------ the model

/// The outermost groups of the elements `seeds` name.
pub open spec fn seed_groups(s: Seq<ElementView>, seeds: Seq<Seq<char>>) -> Set<Seq<char>> {
    collected(
        seeds.len() as int,
        |k: int| named(s, seeds[k]) is Some && named(s, seeds[k]).unwrap().group_ids.len() > 0,
        |k: int| named(s, seeds[k]).unwrap().group_ids.last(),
    )
}

/// The frames among the elements `seeds` name.
pub open spec fn seed_frames(s: Seq<ElementView>, seeds: Seq<Seq<char>>) -> Set<Seq<char>> {
    collected(
        seeds.len() as int,
        |k: int| named(s, seeds[k]) is Some && frame_kind(named(s, seeds[k]).unwrap()),
        |k: int| seeds[k],
    )
}

/// Picks the elements swept along with the seeds: members of their outermost groups, and
/// what their frames hold.
pub open spec fn swept_along(s: Seq<ElementView>, seeds: Seq<Seq<char>>) -> spec_fn(int) -> bool {
    |i: int|
        shares(s[i], seed_groups(s, seeds)) || (s[i].frame_id is Some && seed_frames(s, seeds).contains(
            s[i].frame_id.unwrap(),
        ))
}

/// The id of the element at each index.
pub open spec fn id_at(s: Seq<ElementView>) -> spec_fn(int) -> Seq<char> {
    |i: int| s[i].id
}

/// The seeds and what their groups and frames take with them.
pub open spec fn swept(s: Seq<ElementView>, seeds: Seq<Seq<char>>) -> Set<Seq<char>> {
    Set::new(|x: Seq<char>| seeds.contains(x)).union(collected(s.len() as int, swept_along(s, seeds), id_at(s)))
}

/// Whether `x` is the label of the element `y` names, or, with `containers`, its
/// container.
pub open spec fn linked_to(s: Seq<ElementView>, y: Seq<char>, x: Seq<char>, containers: bool) -> bool {
    named(s, y) is Some && (named(s, y).unwrap().bound_text_id == Some(x) || (containers && named(
        s,
        y,
    ).unwrap().container_id == Some(x)))
}

/// The labels (and, with `containers`, the containers) of what `from` names.
pub open spec fn partners_of(s: Seq<ElementView>, from: Set<Seq<char>>, containers: bool) -> Set<Seq<char>> {
    Set::new(|x: Seq<char>| exists|y: Seq<char>| from.contains(y) && #[trigger] linked_to(s, y, x, containers))
}

/// Everything a sweep touching `seeds` marks: what it sweeps, with each one's label or
/// container.
pub open spec fn erased_set(s: Seq<ElementView>, seeds: Seq<Seq<char>>) -> Set<Seq<char>> {
    swept(s, seeds).union(partners_of(s, swept(s, seeds), true))
}

/// What erasing `marked` takes before labels: the marks, and the live children of the
/// marked frames.
pub open spec fn erased_first(s: Seq<ElementView>, marked: Set<Seq<char>>) -> Set<Seq<char>> {
    marked.union(
        collected(
            s.len() as int,
            |i: int|
                !s[i].is_deleted && s[i].frame_id is Some && marked.contains(s[i].frame_id.unwrap()) && named(
                    s,
                    s[i].frame_id.unwrap(),
                ) is Some && frame_kind(named(s, s[i].frame_id.unwrap()).unwrap()),
            |i: int| s[i].id,
        ),
    )
}

/// Everything erasing `marked` takes: the marks, what marked frames hold, and every label
/// of those.
pub open spec fn erased_all(s: Seq<ElementView>, marked: Set<Seq<char>>) -> Set<Seq<char>> {
    erased_first(s, marked).union(partners_of(s, erased_first(s, marked), false))
}

/// Whether an end bound to `b` is let go: the shape it names goes.
pub open spec fn let_go(b: Option<Seq<char>>, doomed: Set<Seq<char>>) -> bool {
    b is Some && doomed.contains(b.unwrap())
}

/// The arrow ends let go of: for each element that stays with an end bound to something
/// that goes, its id and which ends, in board order.
pub open spec fn released(s: Seq<ElementView>, doomed: Set<Seq<char>>) -> Seq<(Seq<char>, bool, bool)> {
    s.filter_map(release_of(doomed))
}

/// What erasing does.
pub struct ErasePlan {
    /// The ids that go.
    pub doomed: Vec<String>,
    /// The elements that stay but let go of an end: id, start let go, end let go.
    pub released: Vec<(String, bool, bool)>,
}

/// Released ends as values.
pub open spec fn released_values(r: Seq<(String, bool, bool)>) -> Seq<(Seq<char>, bool, bool)> {
    Seq::new(r.len(), |k: int| (r[k].0@, r[k].1, r[k].2))
}

/// Labels and containers collected up the list `f`, the way a scan meets them.
proof fn lemma_partners_collected(s: Seq<ElementView>, f: Seq<Seq<char>>, containers: bool)
    ensures
        collected(
            f.len() as int,
            |k: int| named(s, f[k]) is Some && named(s, f[k]).unwrap().bound_text_id is Some,
            |k: int| named(s, f[k]).unwrap().bound_text_id.unwrap(),
        ).union(
            collected(
                f.len() as int,
                |k: int| containers && named(s, f[k]) is Some && named(s, f[k]).unwrap().container_id is Some,
                |k: int| named(s, f[k]).unwrap().container_id.unwrap(),
            ),
        ) == partners_of(s, Set::new(|y: Seq<char>| f.contains(y)), containers),
{
    let pb = |k: int| named(s, f[k]) is Some && named(s, f[k]).unwrap().bound_text_id is Some;
    let fb = |k: int| named(s, f[k]).unwrap().bound_text_id.unwrap();
    let pc = |k: int| containers && named(s, f[k]) is Some && named(s, f[k]).unwrap().container_id is Some;
    let fc = |k: int| named(s, f[k]).unwrap().container_id.unwrap();
    let n = f.len() as int;
    let from = Set::new(|y: Seq<char>| f.contains(y));
    let got = collected(n, pb, fb).union(collected(n, pc, fc));
    let want = partners_of(s, from, containers);
    assert forall|x: Seq<char>| got.contains(x) implies want.contains(x) by {
        if collected(n, pb, fb).contains(x) {
            let j = choose|j: int| 0 <= j < n && pb(j) && #[trigger] fb(j) == x;
            assert(from.contains(f[j]));
            assert(linked_to(s, f[j], x, containers));
        } else {
            let j = choose|j: int| 0 <= j < n && pc(j) && #[trigger] fc(j) == x;
            assert(from.contains(f[j]));
            assert(linked_to(s, f[j], x, containers));
        }
    }
    assert forall|x: Seq<char>| want.contains(x) implies got.contains(x) by {
        let y = choose|y: Seq<char>| from.contains(y) && #[trigger] linked_to(s, y, x, containers);
        let j = choose|j: int| 0 <= j < f.len() && f[j] == y;
        if named(s, y).unwrap().bound_text_id == Some(x) {
            assert(pb(j) && fb(j) == x);
        } else {
            assert(pc(j) && fc(j) == x);
        }
    }
    assert(got =~= want);
}

/// The set `base` grown by the labels, and with `containers` the containers, of what
/// `from` names.
fn with_partners(elements: &[DrawElement], from: &Vec<String>, base: Vec<String>, containers: bool) -> (r:
    Vec<String>)
    requires
        distinct(base@),
    ensures
        distinct(r@),
        idset(r@) == idset(base@).union(partners_of(scene(elements@), idset(from@), containers)),
{
    let ghost s = scene(elements@);
    let ghost f = sv(from@);
    let ghost pb = |k: int| named(s, f[k]) is Some && named(s, f[k]).unwrap().bound_text_id is Some;
    let ghost fb = |k: int| named(s, f[k]).unwrap().bound_text_id.unwrap();
    let ghost pc = |k: int| containers && named(s, f[k]) is Some && named(s, f[k]).unwrap().container_id is Some;
    let ghost fc = |k: int| named(s, f[k]).unwrap().container_id.unwrap();
    let mut out = base;
    let ghost b0 = idset(out@);
    let mut k: usize = 0;
    while k < from.len()
        invariant
            k <= from.len(),
            s == scene(elements@),
            f == sv(from@),
            pb == (|k: int| named(s, f[k]) is Some && named(s, f[k]).unwrap().bound_text_id is Some),
            fb == (|k: int| named(s, f[k]).unwrap().bound_text_id.unwrap()),
            pc == (|k: int| containers && named(s, f[k]) is Some && named(s, f[k]).unwrap().container_id is Some),
            fc == (|k: int| named(s, f[k]).unwrap().container_id.unwrap()),
            distinct(out@),
            idset(out@) == b0.union(collected(k as int, pb, fb)).union(collected(k as int, pc, fc)),
        decreases from.len() - k,
    {
        proof {
            lemma_collected_step(k as int, pb, fb);
            lemma_collected_step(k as int, pc, fc);
        }
        assert(f[k as int] == from@[k as int]@);
        match position_named(elements, &from[k]) {
            Some(j) => {
                match &elements[j].bound_text_id {
                    Some(b) => {
                        add_id(&mut out, b.clone());
                    },
                    None => {},
                }
                if containers {
                    match &elements[j].container_id {
                        Some(c) => {
                            add_id(&mut out, c.clone());
                        },
                        None => {},
                    }
                }
            },
            None => {},
        }
        assert(idset(out@) =~= b0.union(collected(k + 1, pb, fb)).union(collected(k + 1, pc, fc)));
        k = k + 1;
    }
    proof {
        lemma_partners_collected(s, f, containers);
    }
    assert(Set::new(|y: Seq<char>| f.contains(y)) =~= idset(from@));
    assert(idset(out@) =~= b0.union(partners_of(s, idset(from@), containers)));
    out
}

/// Everything a sweep touching `seeds` marks: each one's whole outermost group,
/// everything a touched frame holds, and a container with its label either way round.
pub fn erased_with(elements: &[DrawElement], seeds: &Vec<String>) -> (r: Vec<String>)
    ensures
        distinct(r@),
        idset(r@) == erased_set(scene(elements@), sv(seeds@)),
{
    let ghost s = scene(elements@);
    let ghost sd = sv(seeds@);
    let ghost gp = |k: int| named(s, sd[k]) is Some && named(s, sd[k]).unwrap().group_ids.len() > 0;
    let ghost gf = |k: int| named(s, sd[k]).unwrap().group_ids.last();
    let ghost fp = |k: int| named(s, sd[k]) is Some && frame_kind(named(s, sd[k]).unwrap());
    let ghost ff = |k: int| sd[k];
    let mut groups: Vec<String> = Vec::new();
    let mut frames: Vec<String> = Vec::new();
    let mut k: usize = 0;
    while k < seeds.len()
        invariant
            k <= seeds.len(),
            s == scene(elements@),
            sd == sv(seeds@),
            gp == (|k: int| named(s, sd[k]) is Some && named(s, sd[k]).unwrap().group_ids.len() > 0),
            gf == (|k: int| named(s, sd[k]).unwrap().group_ids.last()),
            fp == (|k: int| named(s, sd[k]) is Some && frame_kind(named(s, sd[k]).unwrap())),
            ff == (|k: int| sd[k]),
            distinct(groups@),
            distinct(frames@),
            idset(groups@) == collected(k as int, gp, gf),
            idset(frames@) == collected(k as int, fp, ff),
        decreases seeds.len() - k,
    {
        proof {
            lemma_collected_step(k as int, gp, gf);
            lemma_collected_step(k as int, fp, ff);
        }
        assert(sd[k as int] == seeds@[k as int]@);
        match position_named(elements, &seeds[k]) {
            Some(j) => {
                let element = &elements[j];
                let n = element.group_ids.len();
                if n > 0 {
                    assert(sv(element.group_ids@)[n - 1] == element.group_ids@[n - 1]@);
                    add_id(&mut groups, element.group_ids[n - 1].clone());
                }
                if is_frame(element) {
                    add_id(&mut frames, seeds[k].clone());
                }
            },
            None => {},
        }
        k = k + 1;
    }
    let ghost gs = idset(groups@);
    let ghost fs = idset(frames@);
    let ghost ap = swept_along(s, sd);
    let ghost af = id_at(s);
    let mut members = crate::group::id_set(crate::element::copy_ids(seeds));
    assert(idset(members@) =~= Set::new(|x: Seq<char>| sd.contains(x)));
    let ghost m0 = idset(members@);
    let mut i: usize = 0;
    while i < elements.len()
        invariant
            i <= elements.len(),
            s == scene(elements@),
            sd == sv(seeds@),
            gs == idset(groups@),
            fs == idset(frames@),
            gs == seed_groups(s, sd),
            fs == seed_frames(s, sd),
            ap == swept_along(s, sd),
            af == id_at(s),
            m0 == Set::new(|x: Seq<char>| sd.contains(x)),
            distinct(members@),
            idset(members@) == m0.union(collected(i as int, ap, af)),
        decreases elements.len() - i,
    {
        proof {
            lemma_collected_step(i as int, ap, af);
        }
        let element = &elements[i];
        assert(s[i as int] == element@);
        let grouped = crate::group::shares_any(element, &groups);
        let framed = match &element.frame_id {
            Some(f) => contains_id(&frames, f),
            None => false,
        };
        if grouped || framed {
            add_id(&mut members, element.id.clone());
        }
        assert(idset(members@) =~= m0.union(collected(i + 1, ap, af)));
        i = i + 1;
    }
    assert(idset(members@) == swept(s, sd));
    let base = crate::element::copy_ids(&members);
    assert(idset(base@) =~= idset(members@));
    with_partners(elements, &members, base, true)
}

} // verus!

verus! {

/// Picks the live children of marked frames.
pub open spec fn held_by_marked(s: Seq<ElementView>, marked: Set<Seq<char>>) -> spec_fn(int) -> bool {
    |i: int|
        !s[i].is_deleted && s[i].frame_id is Some && marked.contains(s[i].frame_id.unwrap()) && named(
            s,
            s[i].frame_id.unwrap(),
        ) is Some && frame_kind(named(s, s[i].frame_id.unwrap()).unwrap())
}

/// What an element lets go of, if it stays and anything it is bound to goes.
pub open spec fn release_of(doomed: Set<Seq<char>>) -> spec_fn(ElementView) -> Option<(Seq<char>, bool, bool)> {
    |e: ElementView|
        if !doomed.contains(e.id) && (let_go(e.start_binding, doomed) || let_go(e.end_binding, doomed)) {
            Some((e.id, let_go(e.start_binding, doomed), let_go(e.end_binding, doomed)))
        } else {
            None
        }
}

/// Whether an end bound to `b` is let go.
fn lets_go(b: &Option<String>, doomed: &Vec<String>) -> (r: bool)
    ensures
        r == let_go(crate::element::ov(*b), idset(doomed@)),
{
    match b {
        Some(id) => contains_id(doomed, id),
        None => false,
    }
}

/// What erasing the marks takes: the marks, what a marked frame holds and every label of
/// those; and the arrow ends that let go of what goes.
pub fn erase_plan(elements: &[DrawElement], marked: &Vec<String>) -> (r: ErasePlan)
    ensures
        distinct(r.doomed@),
        idset(r.doomed@) == erased_all(scene(elements@), idset(marked@)),
        released_values(r.released@) == released(scene(elements@), erased_all(scene(elements@), idset(marked@))),
{
    let ghost s = scene(elements@);
    let ghost mk = idset(marked@);
    let ghost hp = held_by_marked(s, mk);
    let ghost hf = |i: int| s[i].id;
    let mut first = crate::group::id_set(crate::element::copy_ids(marked));
    let mut i: usize = 0;
    while i < elements.len()
        invariant
            i <= elements.len(),
            s == scene(elements@),
            mk == idset(marked@),
            hp == held_by_marked(s, mk),
            hf == (|i: int| s[i].id),
            distinct(first@),
            idset(first@) == mk.union(collected(i as int, hp, hf)),
        decreases elements.len() - i,
    {
        proof {
            lemma_collected_step(i as int, hp, hf);
        }
        let element = &elements[i];
        assert(s[i as int] == element@);
        let held = match &element.frame_id {
            Some(f) => !element.is_deleted && contains_id(marked, f) && match position_named(elements, f) {
                Some(j) => is_frame(&elements[j]),
                None => false,
            },
            None => false,
        };
        if held {
            add_id(&mut first, element.id.clone());
        }
        assert(idset(first@) =~= mk.union(collected(i + 1, hp, hf)));
        i = i + 1;
    }
    assert(idset(first@) == erased_first(s, mk));
    let base = crate::element::copy_ids(&first);
    assert(idset(base@) =~= idset(first@));
    let doomed = with_partners(elements, &first, base, false);
    let ghost dm = idset(doomed@);
    assert(dm == erased_all(s, mk));
    let ghost rel = release_of(dm);
    let mut released: Vec<(String, bool, bool)> = Vec::new();
    let mut k: usize = 0;
    while k < elements.len()
        invariant
            k <= elements.len(),
            s == scene(elements@),
            dm == idset(doomed@),
            rel == release_of(dm),
            released_values(released@) == s.take(k as int).filter_map(rel),
        decreases elements.len() - k,
    {
        proof {
            crate::group::lemma_filter_map_step(s, rel, k as int);
        }
        let element = &elements[k];
        assert(s[k as int] == element@);
        let start = lets_go(&element.start_binding, &doomed);
        let end = lets_go(&element.end_binding, &doomed);
        if !contains_id(&doomed, &element.id) && (start || end) {
            let ghost before = released_values(released@);
            released.push((element.id.clone(), start, end));
            assert(released_values(released@) =~= before.push((s[k as int].id, start, end)));
        }
        k = k + 1;
    }
    assert(s.take(elements.len() as int) =~= s);
    ErasePlan { doomed, released }
}

/// The seeds of a sweep: what it touched whose mark it would change.
pub open spec fn seeds_of(touched: Seq<Seq<char>>, erasing: Set<Seq<char>>, restore: bool) -> Seq<Seq<char>> {
    touched.filter(|id: Seq<char>| restore == erasing.contains(id))
}

/// The marks after a sweep: what it takes is marked, or with `restore` unmarked.
pub open spec fn marks_after(
    s: Seq<ElementView>,
    erasing: Set<Seq<char>>,
    touched: Seq<Seq<char>>,
    restore: bool,
) -> Set<Seq<char>> {
    let seeds = seeds_of(touched, erasing, restore);
    if seeds.len() == 0 {
        erasing
    } else if restore {
        erasing.difference(erased_set(s, seeds))
    } else {
        erasing.union(erased_set(s, seeds))
    }
}

/// One more id in a list is one more id in its set.
pub(crate) proof fn lemma_idset_push(v: Seq<String>, x: String)
    ensures
        idset(v.push(x)) == idset(v).insert(x@),
{
    assert(sv(v.push(x)) =~= sv(v).push(x@));
    assert forall|y: Seq<char>| idset(v.push(x)).contains(y) == idset(v).insert(x@).contains(y) by {
        if sv(v).push(x@).contains(y) && y != x@ {
            let j = choose|j: int| 0 <= j < sv(v).push(x@).len() && sv(v).push(x@)[j] == y;
            assert(sv(v)[j] == y);
        }
        if sv(v).contains(y) {
            let j = choose|j: int| 0 <= j < sv(v).len() && sv(v)[j] == y;
            assert(sv(v).push(x@)[j] == y);
        }
        if y == x@ {
            assert(sv(v).push(x@)[sv(v).len() as int] == y);
        }
    }
    assert(idset(v.push(x)) =~= idset(v).insert(x@));
}

/// `v` without the ids of `gone`.
pub(crate) fn without_ids(v: &Vec<String>, gone: &Vec<String>) -> (r: Vec<String>)
    requires
        distinct(v@),
    ensures
        distinct(r@),
        idset(r@) == idset(v@).difference(idset(gone@)),
{
    let mut out: Vec<String> = Vec::new();
    let mut i: usize = 0;
    while i < v.len()
        invariant
            i <= v.len(),
            distinct(v@),
            distinct(out@),
            idset(out@) == idset(v@.take(i as int)).difference(idset(gone@)),
        decreases v.len() - i,
    {
        assert(v@.take(i + 1) =~= v@.take(i as int).push(v@[i as int]));
        proof {
            lemma_idset_push(v@.take(i as int), v@[i as int]);
        }
        if !contains_id(gone, &v[i]) {
            add_id(&mut out, v[i].clone());
        }
        assert(idset(out@) =~= idset(v@.take(i + 1)).difference(idset(gone@)));
        i = i + 1;
    }
    assert(v@.take(v.len() as int) =~= v@);
    out
}

/// A sweep over what the pointer touched: marks everything it takes, or with `restore`
/// (Alt held) unmarks it; only what would change seeds it. Whether any mark changed.
pub fn mark_sweep(erasing: &mut Vec<String>, elements: &[DrawElement], touched: &Vec<String>, restore: bool) -> (changed:
    bool)
    requires
        distinct(old(erasing)@),
    ensures
        distinct(final(erasing)@),
        idset(final(erasing)@) == marks_after(scene(elements@), idset(old(erasing)@), sv(touched@), restore),
        changed == (seeds_of(sv(touched@), idset(old(erasing)@), restore).len() > 0 && exists|x: Seq<char>|
            erased_set(scene(elements@), seeds_of(sv(touched@), idset(old(erasing)@), restore)).contains(x)
                && #[trigger] idset(old(erasing)@).contains(x) == restore),
{
    let ghost old_set = idset(erasing@);
    let ghost t = sv(touched@);
    let ghost keep = |id: Seq<char>| restore == old_set.contains(id);
    let mut seeds: Vec<String> = Vec::new();
    let mut i: usize = 0;
    while i < touched.len()
        invariant
            i <= touched.len(),
            t == sv(touched@),
            old_set == idset(erasing@),
            keep == (|id: Seq<char>| restore == old_set.contains(id)),
            sv(seeds@) == t.take(i as int).filter(keep),
        decreases touched.len() - i,
    {
        proof {
            crate::group::lemma_filter_step(t, keep, i as int);
        }
        assert(t[i as int] == touched@[i as int]@);
        if restore == contains_id(erasing, &touched[i]) {
            let ghost before = seeds@;
            seeds.push(touched[i].clone());
            assert(sv(seeds@) =~= sv(before).push(t[i as int]));
        }
        i = i + 1;
    }
    assert(t.take(touched.len() as int) =~= t);
    let ghost sd = sv(seeds@);
    if seeds.len() == 0 {
        return false;
    }
    let members = erased_with(elements, &seeds);
    let ghost ms = idset(members@);
    let mut changed = false;
    let mut k: usize = 0;
    while k < members.len()
        invariant
            k <= members.len(),
            old_set == idset(old(erasing)@),
            old_set == idset(erasing@),
            distinct(erasing@),
            ms == idset(members@),
            changed == exists|j: int| 0 <= j < k && #[trigger] old_set.contains(members@[j]@) == restore,
        decreases members.len() - k,
    {
        let c = contains_id(erasing, &members[k]);
        assert(c == old_set.contains(members@[k as int]@));
        if c == restore {
            changed = true;
            assert(old_set.contains(members@[k as int]@) == restore);
        } else {
            assert forall|j: int| 0 <= j < k + 1 && #[trigger] old_set.contains(members@[j]@) == restore implies j
                < k by {}
        }
        k = k + 1;
    }
    proof {
        assert(changed == exists|x: Seq<char>| ms.contains(x) && #[trigger] old_set.contains(x) == restore) by {
            if changed {
                let j = choose|j: int| 0 <= j < members.len() && #[trigger] old_set.contains(members@[j]@) == restore;
                assert(sv(members@)[j] == members@[j]@);
                assert(ms.contains(members@[j]@));
            }
            if exists|x: Seq<char>| ms.contains(x) && #[trigger] old_set.contains(x) == restore {
                let x = choose|x: Seq<char>| ms.contains(x) && #[trigger] old_set.contains(x) == restore;
                let j = choose|j: int| 0 <= j < sv(members@).len() && sv(members@)[j] == x;
                assert(members@[j]@ == x);
                assert(old_set.contains(members@[j]@) == restore);
            }
        }
    }
    if restore {
        let next = without_ids(erasing, &members);
        *erasing = next;
    } else {
        let mut m: usize = 0;
        while m < members.len()
            invariant
                m <= members.len(),
                distinct(erasing@),
                idset(erasing@) == old_set.union(idset(members@.take(m as int))),
            decreases members.len() - m,
        {
            assert(members@.take(m + 1) =~= members@.take(m as int).push(members@[m as int]));
            proof {
                lemma_idset_push(members@.take(m as int), members@[m as int]);
            }
            add_id(erasing, members[m].clone());
            assert(idset(erasing@) =~= old_set.union(idset(members@.take(m + 1))));
            m = m + 1;
        }
        assert(members@.take(members.len() as int) =~= members@);
    }
    changed
}

} // verus!

verus! {

/// A sweep takes whole groups: every member of a touched element's outermost group.
pub proof fn lemma_sweep_takes_whole_groups(s: Seq<ElementView>, seeds: Seq<Seq<char>>, k: int, i: int)
    requires
        0 <= k < seeds.len(),
        0 <= i < s.len(),
        named(s, seeds[k]) is Some,
        named(s, seeds[k]).unwrap().group_ids.len() > 0,
        s[i].group_ids.contains(named(s, seeds[k]).unwrap().group_ids.last()),
    ensures
        erased_set(s, seeds).contains(s[i].id),
{
    let g = named(s, seeds[k]).unwrap().group_ids.last();
    let gp = |k: int| named(s, seeds[k]) is Some && named(s, seeds[k]).unwrap().group_ids.len() > 0;
    let gf = |k: int| named(s, seeds[k]).unwrap().group_ids.last();
    assert(gp(k) && gf(k) == g);
    assert(seed_groups(s, seeds).contains(g));
    let m = choose|m: int| 0 <= m < s[i].group_ids.len() && s[i].group_ids[m] == g;
    assert(shares(s[i], seed_groups(s, seeds)));
    assert(swept_along(s, seeds)(i));
    assert(id_at(s)(i) == s[i].id);
    assert(collected(s.len() as int, swept_along(s, seeds), id_at(s)).contains(s[i].id));
}

/// A sweep takes all a touched frame holds.
pub proof fn lemma_sweep_takes_frame_contents(s: Seq<ElementView>, seeds: Seq<Seq<char>>, k: int, i: int)
    requires
        0 <= k < seeds.len(),
        0 <= i < s.len(),
        named(s, seeds[k]) is Some,
        frame_kind(named(s, seeds[k]).unwrap()),
        s[i].frame_id == Some(seeds[k]),
    ensures
        erased_set(s, seeds).contains(s[i].id),
{
    let fp = |k: int| named(s, seeds[k]) is Some && frame_kind(named(s, seeds[k]).unwrap());
    let ff = |k: int| seeds[k];
    assert(fp(k) && ff(k) == seeds[k]);
    assert(seed_frames(s, seeds).contains(seeds[k]));
    assert(swept_along(s, seeds)(i));
    assert(id_at(s)(i) == s[i].id);
    assert(collected(s.len() as int, swept_along(s, seeds), id_at(s)).contains(s[i].id));
}

/// A sweep leaves no label behind pinned to what it takes, nor takes a label without its
/// container.
pub proof fn lemma_sweep_takes_partners(s: Seq<ElementView>, seeds: Seq<Seq<char>>, y: Seq<char>, x: Seq<char>)
    requires
        swept(s, seeds).contains(y),
        linked_to(s, y, x, true),
    ensures
        erased_set(s, seeds).contains(x),
{
    assert(partners_of(s, swept(s, seeds), true).contains(x));
}

/// What `filter_map` keeps of an element is in its result.
proof fn lemma_filter_map_keeps<A, B>(s: Seq<A>, f: spec_fn(A) -> Option<B>, i: int)
    requires
        0 <= i < s.len(),
        f(s[i]) is Some,
    ensures
        s.filter_map(f).contains(f(s[i]).unwrap()),
    decreases s.len(),
{
    let rest = s.drop_last();
    if i == s.len() - 1 {
        assert(s.filter_map(f) == rest.filter_map(f) + seq![f(s[i]).unwrap()]);
        assert((rest.filter_map(f) + seq![f(s[i]).unwrap()])[rest.filter_map(f).len() as int] == f(
            s[i],
        ).unwrap());
    } else {
        assert(rest[i] == s[i]);
        lemma_filter_map_keeps(rest, f, i);
        let k = choose|k: int| 0 <= k < rest.filter_map(f).len() && rest.filter_map(f)[k] == f(s[i]).unwrap();
        match f(s.last()) {
            Some(b) => {
                assert(s.filter_map(f) == rest.filter_map(f) + seq![b]);
                assert((rest.filter_map(f) + seq![b])[k] == f(s[i]).unwrap());
            },
            None => {
                assert(s.filter_map(f) == rest.filter_map(f));
            },
        }
    }
}

/// An arrow lets go of whatever goes: every element that stays with an end bound to
/// something erased, its start or its end alone, is released, with exactly its ends bound
/// to what goes flagged.
pub proof fn lemma_release_either_end(s: Seq<ElementView>, doomed: Set<Seq<char>>, i: int)
    requires
        0 <= i < s.len(),
        !doomed.contains(s[i].id),
        (s[i].start_binding is Some && doomed.contains(s[i].start_binding.unwrap())) || (
        s[i].end_binding is Some && doomed.contains(s[i].end_binding.unwrap())),
    ensures
        released(s, doomed).contains(
            (
                s[i].id,
                s[i].start_binding is Some && doomed.contains(s[i].start_binding.unwrap()),
                s[i].end_binding is Some && doomed.contains(s[i].end_binding.unwrap()),
            ),
        ),
{
    lemma_filter_map_keeps(s, release_of(doomed), i);
}

/// Only what stays is released, and only for an end bound to something that goes.
pub proof fn lemma_released_let_go(s: Seq<ElementView>, doomed: Set<Seq<char>>, x: (Seq<char>, bool, bool))
    requires
        released(s, doomed).contains(x),
    ensures
        exists|i: int|
            0 <= i < s.len() && #[trigger] s[i].id == x.0 && !doomed.contains(x.0) && x.1 == (
            s[i].start_binding is Some && doomed.contains(s[i].start_binding.unwrap())) && x.2 == (
            s[i].end_binding is Some && doomed.contains(s[i].end_binding.unwrap())) && (x.1 || x.2),
{
    s.lemma_filter_map_contains(release_of(doomed), x);
    let e = choose|e: ElementView| #[trigger] s.contains(e) && release_of(doomed)(e) == Some(x);
    let i = choose|i: int| 0 <= i < s.len() && s[i] == e;
    assert(s[i].id == x.0);
}

} // verus!
