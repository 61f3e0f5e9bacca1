//! What a copy takes, and the runs a duplicate joins as one block.

use vstd::prelude::*;
use crate::element::{
    contains_id, distinct, frame_kind, idset, is_frame, ov, same_text, scene, strv, sv, add_id,
    DrawElement, ElementView,
};
use crate::group::{
    collected, first_such, group_at, in_group, labels_of, last_such, lemma_collected_step,
    lemma_filter_step, lemma_first_found, lemma_first_such, lemma_last_found, lemma_last_such,
    is_in_group, selected_group_for, with_labels,
};

verus! {

/// What a duplicated run is placed beside: the id every member of it shares.
#[derive(Clone, Debug, PartialEq, Eq, Hash)]
pub enum DuplicateRun {
    /// A group: the level a click selects, or the group being edited itself.
    Group(String),
    /// A frame, with the children of it also being duplicated.
    Frame(String),
    /// A container, with its bound label also being duplicated.
    Container(String),
    /// Nothing shared with anything else being duplicated: its own id.
    Solo(String),
}

/// A run's key as a value.
pub enum RunKey {
    Group(Seq<char>),
    Frame(Seq<char>),
    Container(Seq<char>),
    Solo(Seq<char>),
}

impl View for DuplicateRun {
    type V = RunKey;

    open spec fn view(&self) -> RunKey {
        match self {
            DuplicateRun::Group(g) => RunKey::Group(g@),
            DuplicateRun::Frame(f) => RunKey::Frame(f@),
            DuplicateRun::Container(c) => RunKey::Container(c@),
            DuplicateRun::Solo(s) => RunKey::Solo(s@),
        }
    }
}

// ------------------------------------------------------------------ the model

/// The selected frames.
pub open spec fn frames_of(s: Seq<ElementView>, ids: Set<Seq<char>>) -> Set<Seq<char>> {
    collected(s.len() as int, |i: int| ids.contains(s[i].id) && frame_kind(s[i]), |i: int| s[i].id)
}

/// The live children of `frames`.
pub open spec fn children_of(s: Seq<ElementView>, frames: Set<Seq<char>>) -> Set<Seq<char>> {
    collected(
        s.len() as int,
        |i: int| !s[i].is_deleted && s[i].frame_id is Some && frames.contains(s[i].frame_id.unwrap()),
        |i: int| s[i].id,
    )
}

/// What a copy of `ids` takes: a selected frame brings its children, and everything
/// brings its label.
pub open spec fn copy_set(s: Seq<ElementView>, ids: Set<Seq<char>>) -> Set<Seq<char>> {
    let grown = ids.union(children_of(s, frames_of(s, ids)));
    grown.union(labels_of(s, grown))
}

/// Whether an element is copied.
pub open spec fn copied_by(wanted: Set<Seq<char>>) -> spec_fn(ElementView) -> bool {
    |e: ElementView| !e.is_deleted && wanted.contains(e.id)
}

/// The live elements a copy of `ids` takes, in board order.
pub open spec fn copied(s: Seq<ElementView>, ids: Set<Seq<char>>) -> Seq<ElementView> {
    s.filter(copied_by(copy_set(s, ids)))
}

/// Whether some element has id `id`.
pub open spec fn present(s: Seq<ElementView>, id: Seq<char>) -> bool {
    exists|j: int| 0 <= j < s.len() && #[trigger] s[j].id == id
}

/// Whether some frame has id `id`.
pub open spec fn frame_present(s: Seq<ElementView>, id: Seq<char>) -> bool {
    exists|j: int| 0 <= j < s.len() && #[trigger] s[j].id == id && frame_kind(s[j])
}

/// Picks the frames named `f` that a click selects a group of.
pub open spec fn grouped_frame(s: Seq<ElementView>, editing: Option<Seq<char>>, f: Seq<char>) -> spec_fn(
    int,
) -> bool {
    |j: int| frame_kind(s[j]) && s[j].id == f && group_at(s[j].group_ids, editing) is Some
}

/// The group of the frame named `f`, when it is a group member: the last such frame's.
pub open spec fn frame_group(s: Seq<ElementView>, editing: Option<Seq<char>>, f: Seq<char>) -> Option<
    Seq<char>,
> {
    match last_such(s.len() as int, grouped_frame(s, editing, f)) {
        Some(j) => group_at(s[j].group_ids, editing),
        None => None,
    }
}

/// The run the element at `i` joins.
pub open spec fn run_key(s: Seq<ElementView>, editing: Option<Seq<char>>, i: int) -> RunKey {
    let e = s[i];
    if let Some(g) = group_at(e.group_ids, editing) {
        RunKey::Group(g)
    } else if editing is Some && in_group(e, editing.unwrap()) {
        RunKey::Group(editing.unwrap())
    } else if e.frame_id is Some && frame_group(s, editing, e.frame_id.unwrap()) is Some {
        RunKey::Group(frame_group(s, editing, e.frame_id.unwrap()).unwrap())
    } else if frame_kind(e) {
        RunKey::Frame(e.id)
    } else if e.frame_id is Some && frame_present(s, e.frame_id.unwrap()) {
        RunKey::Frame(e.frame_id.unwrap())
    } else if e.bound_text_id is Some && present(s, e.bound_text_id.unwrap()) {
        RunKey::Container(e.id)
    } else if e.container_id is Some && present(s, e.container_id.unwrap()) {
        RunKey::Container(e.container_id.unwrap())
    } else {
        RunKey::Solo(e.id)
    }
}

/// The indices below `n`.
pub open spec fn indices(n: int) -> Seq<int> {
    Seq::new(n as nat, |i: int| i)
}

/// Picks the indices whose element joins `key`.
pub open spec fn joins(s: Seq<ElementView>, editing: Option<Seq<char>>, key: RunKey) -> spec_fn(int) -> bool {
    |i: int| run_key(s, editing, i) == key
}

/// Picks the indices that open a run: the first of each key.
pub open spec fn opens(s: Seq<ElementView>, editing: Option<Seq<char>>) -> spec_fn(int) -> bool {
    |i: int| forall|j: int| 0 <= j < i ==> run_key(s, editing, j) != run_key(s, editing, i)
}

/// The runs, in the order each was first met, each with its members in board order.
pub open spec fn dup_runs(s: Seq<ElementView>, editing: Option<Seq<char>>) -> Seq<(RunKey, Seq<int>)> {
    let firsts = indices(s.len() as int).filter(opens(s, editing));
    Seq::new(
        firsts.len(),
        |t: int|
            (
                run_key(s, editing, firsts[t]),
                indices(s.len() as int).filter(joins(s, editing, run_key(s, editing, firsts[t]))),
            ),
    )
}

/// Whether an untouched element belongs to a run, so it can anchor the copies of it.
pub open spec fn owned_by(key: RunKey, e: ElementView) -> bool {
    match key {
        RunKey::Group(g) => in_group(e, g),
        RunKey::Frame(f) => e.id == f || e.frame_id == Some(f),
        RunKey::Container(c) => e.id == c || e.container_id == Some(c),
        RunKey::Solo(id) => e.id == id,
    }
}

/// A list of indices as integers.
pub open spec fn ints(v: Seq<usize>) -> Seq<int> {
    Seq::new(v.len(), |k: int| v[k] as int)
}

/// Runs with their members as integers.
pub open spec fn runs_as_values(r: Seq<(DuplicateRun, Vec<usize>)>) -> Seq<(RunKey, Seq<int>)> {
    Seq::new(r.len(), |t: int| (r[t].0@, Seq::new(r[t].1@.len(), |k: int| r[t].1@[k] as int)))
}

} // verus!

verus! {

// ------------------------------------------------------------------ the rules

impl DuplicateRun {
    /// Whether `element`, untouched in the scene, belongs to this run, so it can anchor
    /// the copies of it.
    pub fn owns(&self, element: &DrawElement) -> (r: bool)
        ensures
            r == owned_by(self@, element@),
    {
        match self {
            DuplicateRun::Group(group) => is_in_group(element, group.as_str()),
            DuplicateRun::Frame(frame) => {
                same_text(&element.id, frame) || match &element.frame_id {
                    Some(f) => same_text(f, frame),
                    None => false,
                }
            },
            DuplicateRun::Container(container) => {
                same_text(&element.id, container) || match &element.container_id {
                    Some(c) => same_text(c, container),
                    None => false,
                }
            },
            DuplicateRun::Solo(id) => same_text(&element.id, id),
        }
    }

    /// A copy of the run key.
    pub fn copy(&self) -> (r: Self)
        ensures
            r@ == self@,
    {
        match self {
            DuplicateRun::Group(g) => DuplicateRun::Group(g.clone()),
            DuplicateRun::Frame(f) => DuplicateRun::Frame(f.clone()),
            DuplicateRun::Container(c) => DuplicateRun::Container(c.clone()),
            DuplicateRun::Solo(s) => DuplicateRun::Solo(s.clone()),
        }
    }

    /// Whether two run keys are the same.
    pub fn same(&self, other: &Self) -> (r: bool)
        ensures
            r == (self@ == other@),
    {
        match (self, other) {
            (DuplicateRun::Group(a), DuplicateRun::Group(b)) => same_text(a, b),
            (DuplicateRun::Frame(a), DuplicateRun::Frame(b)) => same_text(a, b),
            (DuplicateRun::Container(a), DuplicateRun::Container(b)) => same_text(a, b),
            (DuplicateRun::Solo(a), DuplicateRun::Solo(b)) => same_text(a, b),
            _ => false,
        }
    }
}

/// The live elements a copy of `ids` takes, in board order: a selected frame brings what
/// is in it, and everything brings its label.
pub fn expand_for_copy_among(elements: &[DrawElement], ids: &Vec<String>) -> (r: Vec<DrawElement>)
    ensures
        scene(r@) == copied(scene(elements@), idset(ids@)),
{
    let ghost s = scene(elements@);
    let ghost sel = idset(ids@);
    // The selected frames.
    let ghost fp = |i: int| sel.contains(s[i].id) && frame_kind(s[i]);
    let ghost ff = |i: int| s[i].id;
    let mut frames: Vec<String> = Vec::new();
    let mut i: usize = 0;
    while i < elements.len()
        invariant
            i <= elements.len(),
            s == scene(elements@),
            sel == idset(ids@),
            fp == (|i: int| sel.contains(s[i].id) && frame_kind(s[i])),
            ff == (|i: int| s[i].id),
            distinct(frames@),
            idset(frames@) == collected(i as int, fp, ff),
        decreases elements.len() - i,
    {
        proof {
            lemma_collected_step(i as int, fp, ff);
        }
        if contains_id(ids, &elements[i].id) && is_frame(&elements[i]) {
            add_id(&mut frames, elements[i].id.clone());
        }
        i = i + 1;
    }
    let ghost fs = idset(frames@);
    assert(fs == frames_of(s, sel));
    // What they hold.
    let ghost cp = |i: int| !s[i].is_deleted && s[i].frame_id is Some && fs.contains(s[i].frame_id.unwrap());
    let ghost cf = |i: int| s[i].id;
    let mut grown = crate::group::id_set(crate::element::copy_ids(ids));
    let mut j: usize = 0;
    while j < elements.len()
        invariant
            j <= elements.len(),
            s == scene(elements@),
            sel == idset(ids@),
            fs == idset(frames@),
            cp == (|i: int| !s[i].is_deleted && s[i].frame_id is Some && fs.contains(s[i].frame_id.unwrap())),
            cf == (|i: int| s[i].id),
            distinct(grown@),
            idset(grown@) == sel.union(collected(j as int, cp, cf)),
        decreases elements.len() - j,
    {
        proof {
            lemma_collected_step(j as int, cp, cf);
        }
        let element = &elements[j];
        let in_frame = match &element.frame_id {
            Some(f) => contains_id(&frames, f),
            None => false,
        };
        if !element.is_deleted && in_frame {
            add_id(&mut grown, element.id.clone());
            assert(idset(grown@) =~= sel.union(collected(j + 1, cp, cf)));
        }
        j = j + 1;
    }
    assert(idset(grown@) == sel.union(children_of(s, frames_of(s, sel))));
    let wanted = with_labels(elements, &grown);
    let ghost w = idset(wanted@);
    assert(w == copy_set(s, sel));
    let mut out: Vec<DrawElement> = Vec::new();
    let mut k: usize = 0;
    while k < elements.len()
        invariant
            k <= elements.len(),
            s == scene(elements@),
            w == idset(wanted@),
            scene(out@) == s.take(k as int).filter(copied_by(w)),
        decreases elements.len() - k,
    {
        proof {
            lemma_filter_step(s, copied_by(w), k as int);
        }
        if !elements[k].is_deleted && contains_id(&wanted, &elements[k].id) {
            let d = elements[k].duplicate();
            let ghost prev = scene(out@);
            out.push(d);
            assert(scene(out@) =~= prev.push(s[k as int]));
        } else {
            assert(scene(out@) =~= s.take(k + 1).filter(copied_by(w)));
        }
        k = k + 1;
    }
    assert(s.take(k as int) =~= s);
    out
}

/// [`expand_for_copy_among`] over a whole board.
pub fn expand_for_copy(elements: &[DrawElement], ids: &Vec<String>) -> (r: Vec<DrawElement>)
    ensures
        scene(r@) == copied(scene(elements@), idset(ids@)),
{
    expand_for_copy_among(elements, ids)
}

} // verus!

verus! {

/// The group of the frame named `f`, when it is a group member.
fn frame_group_of(source: &[DrawElement], editing: Option<&str>, f: &String) -> (r: Option<String>)
    ensures
        ov(r) == frame_group(scene(source@), strv(editing), f@),
{
    let ghost s = scene(source@);
    let ghost p = grouped_frame(s, strv(editing), f@);
    proof {
        lemma_last_such(source.len() as int, p);
    }
    let mut k: usize = source.len();
    while k > 0
        invariant
            k <= source.len(),
            s == scene(source@),
            p == grouped_frame(s, strv(editing), f@),
            forall|j: int| k <= j < source.len() ==> !#[trigger] p(j),
        decreases k,
    {
        let element = &source[k - 1];
        if is_frame(element) && same_text(&element.id, f) {
            match selected_group_for(element, editing) {
                Some(g) => {
                    proof {
                        lemma_last_found(source.len() as int, p, k - 1);
                    }
                    return Some(g.clone());
                },
                None => {},
            }
        }
        k = k - 1;
    }
    None
}

/// Whether some element has id `id`.
fn is_present(source: &[DrawElement], id: &String) -> (r: bool)
    ensures
        r == present(scene(source@), id@),
{
    let ghost s = scene(source@);
    let mut i: usize = 0;
    while i < source.len()
        invariant
            i <= source.len(),
            s == scene(source@),
            forall|j: int| 0 <= j < i ==> #[trigger] s[j].id != id@,
        decreases source.len() - i,
    {
        if same_text(&source[i].id, id) {
            assert(s[i as int].id == id@);
            return true;
        }
        i = i + 1;
    }
    false
}

/// Whether some frame has id `id`.
fn is_frame_present(source: &[DrawElement], id: &String) -> (r: bool)
    ensures
        r == frame_present(scene(source@), id@),
{
    let ghost s = scene(source@);
    let mut i: usize = 0;
    while i < source.len()
        invariant
            i <= source.len(),
            s == scene(source@),
            forall|j: int| 0 <= j < i ==> !(#[trigger] s[j].id == id@ && frame_kind(s[j])),
        decreases source.len() - i,
    {
        if same_text(&source[i].id, id) && is_frame(&source[i]) {
            assert(s[i as int].id == id@);
            return true;
        }
        i = i + 1;
    }
    false
}

/// The run the element at `i` joins.
fn key_at(source: &[DrawElement], editing: Option<&str>, i: usize) -> (r: DuplicateRun)
    requires
        i < source.len(),
    ensures
        r@ == run_key(scene(source@), strv(editing), i as int),
{
    let element = &source[i];
    if let Some(group) = selected_group_for(element, editing) {
        return DuplicateRun::Group(group.clone());
    }
    if let Some(e) = editing {
        if is_in_group(element, e) {
            return DuplicateRun::Group(e.to_owned());
        }
    }
    if let Some(f) = &element.frame_id {
        if let Some(g) = frame_group_of(source, editing, f) {
            return DuplicateRun::Group(g);
        }
    }
    if is_frame(element) {
        return DuplicateRun::Frame(element.id.clone());
    }
    if let Some(f) = &element.frame_id {
        if is_frame_present(source, f) {
            return DuplicateRun::Frame(f.clone());
        }
    }
    if let Some(label) = &element.bound_text_id {
        if is_present(source, label) {
            return DuplicateRun::Container(element.id.clone());
        }
    }
    if let Some(container) = &element.container_id {
        if is_present(source, container) {
            return DuplicateRun::Container(container.clone());
        }
    }
    DuplicateRun::Solo(element.id.clone())
}

/// The indices whose key is `key`, in order.
fn members_of(keys: &Vec<DuplicateRun>, key: &DuplicateRun, Ghost(s): Ghost<Seq<ElementView>>, Ghost(ed): Ghost<Option<Seq<char>>>) -> (r: Vec<usize>)
    requires
        keys.len() == s.len(),
        forall|j: int| 0 <= j < keys.len() ==> #[trigger] keys@[j]@ == run_key(s, ed, j),
    ensures
        ints(r@) == indices(s.len() as int).filter(joins(s, ed, key@)),
{
    let ghost all = indices(s.len() as int);
    let ghost p = joins(s, ed, key@);
    let mut out: Vec<usize> = Vec::new();
    let mut j: usize = 0;
    while j < keys.len()
        invariant
            j <= keys.len(),
            keys.len() == s.len(),
            all == indices(s.len() as int),
            p == joins(s, ed, key@),
            forall|q: int| 0 <= q < keys.len() ==> #[trigger] keys@[q]@ == run_key(s, ed, q),
            ints(out@) == all.take(j as int).filter(p),
        decreases keys.len() - j,
    {
        proof {
            lemma_filter_step(all, p, j as int);
        }
        assert(all[j as int] == j as int);
        if keys[j].same(key) {
            out.push(j);
            assert(ints(out@) =~= all.take(j + 1).filter(p));
        } else {
            assert(ints(out@) =~= all.take(j + 1).filter(p));
        }
        j = j + 1;
    }
    assert(all.take(j as int) =~= all);
    out
}

/// Groups `source` (the elements about to be duplicated, in board order, already grown by
/// [`expand_for_copy_among`]) into the runs a copy joins as one block: a group, a frame
/// with the children of it also being duplicated, a container with its label, or an
/// element on its own. Runs come in the order each was first met, each with its members'
/// indices in order.
pub fn duplicate_runs(source: &[DrawElement], editing: Option<&str>) -> (r: Vec<(DuplicateRun, Vec<usize>)>)
    ensures
        runs_as_values(r@) == dup_runs(scene(source@), strv(editing)),
{
    let ghost s = scene(source@);
    let ghost ed = strv(editing);
    let mut keys: Vec<DuplicateRun> = Vec::new();
    let mut i: usize = 0;
    while i < source.len()
        invariant
            i <= source.len(),
            s == scene(source@),
            ed == strv(editing),
            keys.len() == i,
            forall|j: int| 0 <= j < i ==> #[trigger] keys@[j]@ == run_key(s, ed, j),
        decreases source.len() - i,
    {
        keys.push(key_at(source, editing, i));
        i = i + 1;
    }
    let ghost all = indices(s.len() as int);
    let ghost op = opens(s, ed);
    let mut out: Vec<(DuplicateRun, Vec<usize>)> = Vec::new();
    let mut firsts: Vec<usize> = Vec::new();
    let mut k: usize = 0;
    while k < source.len()
        invariant
            k <= source.len(),
            keys.len() == source.len(),
            s == scene(source@),
            ed == strv(editing),
            all == indices(s.len() as int),
            op == opens(s, ed),
            forall|j: int| 0 <= j < keys.len() ==> #[trigger] keys@[j]@ == run_key(s, ed, j),
            ints(firsts@) == all.take(k as int).filter(op),
            out.len() == firsts.len(),
            forall|t: int| 0 <= t < out.len() ==> (#[trigger] out@[t]).0@ == run_key(s, ed, firsts@[t] as int)
                && ints(out@[t].1@) == all.filter(joins(s, ed, run_key(s, ed, firsts@[t] as int))),
        decreases source.len() - k,
    {
        proof {
            lemma_filter_step(all, op, k as int);
        }
        assert(all[k as int] == k as int);
        let mut fresh = true;
        let mut q: usize = 0;
        while q < k
            invariant
                q <= k < keys.len(),
                forall|j: int| 0 <= j < keys.len() ==> #[trigger] keys@[j]@ == run_key(s, ed, j),
                fresh == forall|j: int| 0 <= j < q ==> run_key(s, ed, j) != run_key(s, ed, k as int),
            decreases k - q,
        {
            if keys[q].same(&keys[k]) {
                fresh = false;
            }
            q = q + 1;
        }
        if fresh {
            assert(op(k as int));
            let members = members_of(&keys, &keys[k], Ghost(s), Ghost(ed));
            out.push((keys[k].copy(), members));
            firsts.push(k);
            assert(ints(firsts@) =~= all.take(k + 1).filter(op));
        } else {
            assert(!op(k as int));
            assert(ints(firsts@) =~= all.take(k + 1).filter(op));
        }
        k = k + 1;
    }
    assert(all.take(k as int) =~= all);
    proof {
        let firsts_v = all.filter(op);
        assert forall|t: int| 0 <= t < out.len() implies firsts@[t] as int == firsts_v[t] by {
            assert(ints(firsts@)[t] == firsts@[t] as int);
        }
        assert(runs_as_values(out@) =~= dup_runs(s, ed));
    }
    out
}

} // verus!

verus! {

// ------------------------------------------------------------------ laws

/// The indices a filter keeps come in increasing order, each below `n`.
pub proof fn lemma_filtered_indices(n: int, p: spec_fn(int) -> bool)
    requires
        0 <= n,
    ensures
        forall|a: int, b: int|
            0 <= a < b < indices(n).filter(p).len() ==> #[trigger] indices(n).filter(p)[a] < #[trigger] indices(
                n,
            ).filter(p)[b],
        forall|a: int| 0 <= a < indices(n).filter(p).len() ==> 0 <= #[trigger] indices(n).filter(p)[a] < n,
    decreases n,
{
    reveal(Seq::filter);
    if n > 0 {
        lemma_filtered_indices(n - 1, p);
        assert(indices(n).drop_last() =~= indices(n - 1));
        assert(indices(n).last() == n - 1);
        let f = indices(n).filter(p);
        let g = indices(n - 1).filter(p);
        assert(f == if p(n - 1) { g.push(n - 1) } else { g });
        assert forall|a: int, b: int| 0 <= a < b < f.len() implies #[trigger] f[a] < #[trigger] f[b] by {
            if b < g.len() {
                assert(f[a] == g[a] && f[b] == g[b]);
            } else {
                assert(f[a] == g[a]);
            }
        }
        assert forall|a: int| 0 <= a < f.len() implies 0 <= #[trigger] f[a] < n by {
            if a < g.len() {
                assert(f[a] == g[a]);
            }
        }
    } else {
        assert(indices(n) =~= Seq::<int>::empty());
    }
}

/// Whether the element at `i` is among the members of a run whose key is its own.
pub open spec fn in_a_run(s: Seq<ElementView>, editing: Option<Seq<char>>, i: int) -> bool {
    exists|t: int|
        0 <= t < dup_runs(s, editing).len() && dup_runs(s, editing)[t].0 == run_key(s, editing, i)
            && #[trigger] dup_runs(s, editing)[t].1.contains(i)
}

/// Every element being duplicated joins exactly one run: its index is among the members
/// of a run whose key is its own, no two runs share a key, and every member of a run has
/// that run's key.
pub proof fn lemma_runs_partition(s: Seq<ElementView>, editing: Option<Seq<char>>)
    ensures
        forall|i: int| 0 <= i < s.len() ==> #[trigger] in_a_run(s, editing, i),
        forall|t1: int, t2: int|
            0 <= t1 < t2 < dup_runs(s, editing).len() ==> #[trigger] dup_runs(s, editing)[t1].0
                != #[trigger] dup_runs(s, editing)[t2].0,
        forall|t: int, m: int|
            0 <= t < dup_runs(s, editing).len() && 0 <= m < dup_runs(s, editing)[t].1.len() ==> run_key(
                s,
                editing,
                #[trigger] dup_runs(s, editing)[t].1[m],
            ) == dup_runs(s, editing)[t].0,
{
    broadcast use vstd::seq_lib::group_filter_ensures;

    let n = s.len() as int;
    let all = indices(n);
    let firsts = all.filter(opens(s, editing));
    let runs = dup_runs(s, editing);
    lemma_filtered_indices(n, opens(s, editing));
    assert forall|i: int| 0 <= i < s.len() implies #[trigger] in_a_run(s, editing, i) by {
        let p = joins(s, editing, run_key(s, editing, i));
        lemma_first_such(n, p);
        assert(p(i));
        let k = first_such(n, p).unwrap();
        assert forall|j: int| 0 <= j < k implies run_key(s, editing, j) != run_key(s, editing, k) by {
            assert(!p(j));
        }
        assert(opens(s, editing)(k));
        assert(all[k] == k);
        assert(firsts.contains(all[k]));
        let t = choose|t: int| 0 <= t < firsts.len() && firsts[t] == k;
        assert(all[i] == i);
        assert(all.filter(p).contains(all[i]));
        assert(runs[t].0 == run_key(s, editing, i));
        assert(runs[t].1.contains(i));
        assert(dup_runs(s, editing)[t].1.contains(i));
    }
    assert forall|t1: int, t2: int| 0 <= t1 < t2 < runs.len() implies #[trigger] runs[t1].0 != #[trigger] runs[t2].0 by {
        assert(firsts[t1] < firsts[t2]);
        assert(opens(s, editing)(firsts[t2]));
    }
    assert forall|t: int, m: int| 0 <= t < runs.len() && 0 <= m < runs[t].1.len() implies run_key(
        s,
        editing,
        #[trigger] runs[t].1[m],
    ) == runs[t].0 by {
        let p = joins(s, editing, run_key(s, editing, firsts[t]));
        assert(p(all.filter(p)[m]));
    }
}

} // verus!
