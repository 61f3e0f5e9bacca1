//! Fresh copies of elements, as a paste or a duplicate makes them: new ids, the references
//! among the copies moved to the copies, the group levels inside the group being edited
//! renamed so the copies share groups as the originals did, and the version reset.
//!
//! The new names are handed in: `fresh_ids[j]` names the copy of the element at `j`, and
//! `fresh_groups[p]` the group at position `p` of the levels the copy renames.

use vstd::prelude::*;
use crate::element::{ov, position_of, scene, strv, sv, DrawElement, ElementView};
use crate::group::{last_such, lemma_filter_map_step, lemma_last_found, lemma_last_such, wrap_at};

verus! {

/// The group levels a copy renames, element after element: each one's levels inside the
/// group being edited, all of them where none is.
pub open spec fn renamed_levels(src: Seq<ElementView>, editing: Option<Seq<char>>) -> Seq<Seq<char>>
    decreases src.len(),
{
    if src.len() == 0 {
        Seq::empty()
    } else {
        renamed_levels(src.drop_last(), editing) + src.last().group_ids.take(
            wrap_at(src.last().group_ids, editing),
        )
    }
}

/// How many group levels the elements of `src` carry in all.
pub open spec fn level_count(src: Seq<ElementView>) -> int
    decreases src.len(),
{
    if src.len() == 0 {
        0
    } else {
        level_count(src.drop_last()) + src.last().group_ids.len()
    }
}

/// The new name of group `g`: the fresh group at its first place among the renamed levels.
pub open spec fn renamed_group(levels: Seq<Seq<char>>, fresh_groups: Seq<Seq<char>>, g: Seq<char>) -> Seq<
    char,
> {
    match levels.index_of_first(g) {
        Some(p) => fresh_groups[p],
        None => g,
    }
}

/// The new id of the element `x` names: the fresh id of the last live element with it.
pub open spec fn new_id(src: Seq<ElementView>, fresh: Seq<Seq<char>>, x: Seq<char>) -> Option<Seq<char>> {
    match last_such(src.len() as int, live_named(src, x)) {
        Some(j) => Some(fresh[j]),
        None => None,
    }
}

/// Whether the element at `j` is live and has the id `x`.
pub open spec fn live_named(src: Seq<ElementView>, x: Seq<char>) -> spec_fn(int) -> bool {
    |j: int| src[j].id == x && !src[j].is_deleted
}

/// A reference among the copies: to the copy of what it named, and none where that was
/// not copied.
pub open spec fn remapped(src: Seq<ElementView>, fresh: Seq<Seq<char>>, r: Option<Seq<char>>) -> Option<
    Seq<char>,
> {
    match r {
        Some(x) => new_id(src, fresh, x),
        None => None,
    }
}

/// The copy of `e`, one of the live elements of `src`.
pub open spec fn fresh_copy(
    src: Seq<ElementView>,
    editing: Option<Seq<char>>,
    fresh: Seq<Seq<char>>,
    fresh_groups: Seq<Seq<char>>,
    updated: u64,
    e: ElementView,
) -> ElementView {
    let levels = renamed_levels(src, editing);
    let k = wrap_at(e.group_ids, editing);
    ElementView {
        id: new_id(src, fresh, e.id).unwrap(),
        group_ids: Seq::new(
            e.group_ids.len(),
            |l: int|
                if l < k {
                    renamed_group(levels, fresh_groups, e.group_ids[l])
                } else {
                    e.group_ids[l]
                },
        ),
        start_binding: remapped(src, fresh, e.start_binding),
        end_binding: remapped(src, fresh, e.end_binding),
        container_id: remapped(src, fresh, e.container_id),
        bound_text_id: remapped(src, fresh, e.bound_text_id),
        version: 1,
        updated,
        is_deleted: false,
        ..e
    }
}

/// The copy of each live element of `src`, in order.
pub open spec fn copy_step(
    src: Seq<ElementView>,
    editing: Option<Seq<char>>,
    fresh: Seq<Seq<char>>,
    fresh_groups: Seq<Seq<char>>,
    updated: u64,
) -> spec_fn(ElementView) -> Option<ElementView> {
    |e: ElementView|
        if e.is_deleted {
            None
        } else {
            Some(fresh_copy(src, editing, fresh, fresh_groups, updated, e))
        }
}

/// What a copy of `src` makes: the copies of its live elements, none where there are none.
pub open spec fn materialized(
    src: Seq<ElementView>,
    editing: Option<Seq<char>>,
    fresh: Seq<Seq<char>>,
    fresh_groups: Seq<Seq<char>>,
    updated: u64,
) -> Option<Seq<ElementView>> {
    let out = src.filter_map(copy_step(src, editing, fresh, fresh_groups, updated));
    if out.len() == 0 {
        None
    } else {
        Some(out)
    }
}

/// The renamed levels are no more than the levels there are.
proof fn lemma_renamed_levels_len(src: Seq<ElementView>, editing: Option<Seq<char>>)
    ensures
        renamed_levels(src, editing).len() <= level_count(src),
    decreases src.len(),
{
    if src.len() > 0 {
        lemma_renamed_levels_len(src.drop_last(), editing);
        if editing is Some {
            src.last().group_ids.index_of_first_ensures(editing.unwrap());
        }
    }
}

/// Where the levels of `group_ids` inside `editing` end.
fn inside_levels(group_ids: &Vec<String>, editing: Option<&str>) -> (r: usize)
    ensures
        r as int == wrap_at(sv(group_ids@), strv(editing)),
        r <= group_ids.len(),
{
    match editing {
        Some(e) => match position_of(group_ids, &e.to_owned()) {
            Some(k) => k,
            None => group_ids.len(),
        },
        None => group_ids.len(),
    }
}

/// The last live element of `source` with the id `x`.
fn last_live_named(source: &[DrawElement], x: &String) -> (r: Option<usize>)
    ensures
        match r {
            Some(j) => j < source.len() && last_such(source.len() as int, live_named(scene(source@), x@))
                == Some(j as int),
            None => last_such(source.len() as int, live_named(scene(source@), x@)) is None,
        },
{
    let ghost s = scene(source@);
    let ghost p = live_named(s, x@);
    proof {
        lemma_last_such(s.len() as int, p);
    }
    let mut i: usize = source.len();
    while i > 0
        invariant
            i <= source.len(),
            s == scene(source@),
            p == live_named(s, x@),
            forall|j: int| i <= j < source.len() ==> !#[trigger] p(j),
        decreases i,
    {
        i = i - 1;
        assert(s[i as int] == source@[i as int]@);
        if source[i].id == *x && !source[i].is_deleted {
            proof {
                lemma_last_found(s.len() as int, p, i as int);
            }
            return Some(i);
        }
    }
    None
}

/// A reference among the copies.
fn remap_ref(source: &[DrawElement], fresh_ids: &Vec<String>, r: &Option<String>) -> (out: Option<String>)
    requires
        fresh_ids.len() >= source.len(),
    ensures
        ov(out) == remapped(scene(source@), sv(fresh_ids@), ov(*r)),
{
    match r {
        Some(x) => match last_live_named(source, x) {
            Some(j) => Some(fresh_ids[j].clone()),
            None => None,
        },
        None => None,
    }
}

/// Fresh copies of the live elements of `source`, made inside the group `editing` (none for
/// a paste), stamped `updated`; none where nothing is live.
pub fn materialize_within(
    source: &[DrawElement],
    editing: Option<&str>,
    fresh_ids: &Vec<String>,
    fresh_groups: &Vec<String>,
    updated: u64,
) -> (r: Option<Vec<DrawElement>>)
    requires
        fresh_ids.len() >= source.len(),
        fresh_groups.len() >= level_count(scene(source@)),
    ensures
        match r {
            Some(v) => materialized(
                scene(source@),
                strv(editing),
                sv(fresh_ids@),
                sv(fresh_groups@),
                updated,
            ) == Some(scene(v@)),
            None => materialized(
                scene(source@),
                strv(editing),
                sv(fresh_ids@),
                sv(fresh_groups@),
                updated,
            ) is None,
        },
{
    let ghost s = scene(source@);
    let ghost ed = strv(editing);
    let ghost fresh = sv(fresh_ids@);
    let ghost fg = sv(fresh_groups@);
    let mut levels: Vec<String> = Vec::new();
    let mut i: usize = 0;
    while i < source.len()
        invariant
            i <= source.len(),
            s == scene(source@),
            ed == strv(editing),
            sv(levels@) == renamed_levels(s.take(i as int), ed),
        decreases source.len() - i,
    {
        let k = inside_levels(&source[i].group_ids, editing);
        let ghost before = sv(levels@);
        let mut l: usize = 0;
        while l < k
            invariant
                i < source.len(),
                l <= k,
                k <= source@[i as int].group_ids.len(),
                sv(levels@) == before + sv(source@[i as int].group_ids@).take(l as int),
            decreases k - l,
        {
            let ghost mid = sv(levels@);
            levels.push(source[i].group_ids[l].clone());
            assert(sv(levels@) =~= mid.push(sv(source@[i as int].group_ids@)[l as int]));
            assert(sv(source@[i as int].group_ids@).take(l + 1) =~= sv(source@[i as int].group_ids@).take(
                l as int,
            ).push(sv(source@[i as int].group_ids@)[l as int]));
            l = l + 1;
        }
        assert(s.take(i + 1).drop_last() =~= s.take(i as int));
        assert(s.take(i + 1).last() == source@[i as int]@);
        i = i + 1;
    }
    assert(s.take(source.len() as int) =~= s);
    proof {
        lemma_renamed_levels_len(s, ed);
    }
    let ghost f = copy_step(s, ed, fresh, fg, updated);
    let mut out: Vec<DrawElement> = Vec::new();
    let mut i: usize = 0;
    while i < source.len()
        invariant
            i <= source.len(),
            fresh_ids.len() >= source.len(),
            levels.len() <= fresh_groups.len(),
            s == scene(source@),
            ed == strv(editing),
            fresh == sv(fresh_ids@),
            fg == sv(fresh_groups@),
            sv(levels@) == renamed_levels(s, ed),
            f == copy_step(s, ed, fresh, fg, updated),
            scene(out@) == s.take(i as int).filter_map(f),
        decreases source.len() - i,
    {
        proof {
            lemma_filter_map_step(s, f, i as int);
        }
        let element = &source[i];
        assert(s[i as int] == element@);
        if !element.is_deleted {
            let mut copy = element.duplicate();
            copy.id = match last_live_named(source, &element.id) {
                Some(j) => fresh_ids[j].clone(),
                None => element.id.clone(),
            };
            let k = inside_levels(&element.group_ids, editing);
            let mut groups: Vec<String> = Vec::new();
            let mut l: usize = 0;
            while l < element.group_ids.len()
                invariant
                    l <= element.group_ids.len(),
                    k as int == wrap_at(element@.group_ids, ed),
                    levels.len() <= fresh_groups.len(),
                    sv(levels@) == renamed_levels(s, ed),
                    fg == sv(fresh_groups@),
                    groups.len() == l,
                    forall|m: int| 0 <= m < l ==> #[trigger] sv(groups@)[m] == (if m < k {
                        renamed_group(renamed_levels(s, ed), fg, element@.group_ids[m])
                    } else {
                        element@.group_ids[m]
                    }),
                decreases element.group_ids.len() - l,
            {
                let g = &element.group_ids[l];
                let named = if l < k {
                    match position_of(&levels, g) {
                        Some(p) => fresh_groups[p].clone(),
                        None => g.clone(),
                    }
                } else {
                    g.clone()
                };
                let ghost before = sv(groups@);
                groups.push(named);
                assert(sv(groups@) =~= before.push(named@));
                l = l + 1;
            }
            copy.group_ids = groups;
            copy.start_binding = remap_ref(source, fresh_ids, &element.start_binding);
            copy.end_binding = remap_ref(source, fresh_ids, &element.end_binding);
            copy.container_id = remap_ref(source, fresh_ids, &element.container_id);
            copy.bound_text_id = remap_ref(source, fresh_ids, &element.bound_text_id);
            copy.version = 1;
            copy.updated = updated;
            proof {
                lemma_last_such(s.len() as int, live_named(s, element@.id));
                assert(live_named(s, element@.id)(i as int));
                assert(sv(copy.group_ids@) =~= fresh_copy(s, ed, fresh, fg, updated, element@).group_ids);
                assert(copy@ =~= fresh_copy(s, ed, fresh, fg, updated, element@));
            }
            let ghost before = scene(out@);
            out.push(copy);
            assert(scene(out@) =~= before.push(f(s[i as int]).unwrap()));
        }
        i = i + 1;
    }
    assert(s.take(source.len() as int) =~= s);
    if out.len() == 0 {
        None
    } else {
        Some(out)
    }
}

/// Copies keep their structure: two elements that shared a group at levels the copy
/// renames share its copy.
pub proof fn lemma_copies_share_groups(
    src: Seq<ElementView>,
    editing: Option<Seq<char>>,
    fresh: Seq<Seq<char>>,
    fresh_groups: Seq<Seq<char>>,
    updated: u64,
    a: ElementView,
    b: ElementView,
    l: int,
    m: int,
)
    requires
        0 <= l < wrap_at(a.group_ids, editing),
        0 <= m < wrap_at(b.group_ids, editing),
        l < a.group_ids.len(),
        m < b.group_ids.len(),
        a.group_ids[l] == b.group_ids[m],
    ensures
        fresh_copy(src, editing, fresh, fresh_groups, updated, a).group_ids[l] == fresh_copy(
            src,
            editing,
            fresh,
            fresh_groups,
            updated,
            b,
        ).group_ids[m],
{
}

/// Copies keep their ties: a reference to a live element of the source names that
/// element's copy.
pub proof fn lemma_copy_keeps_references(
    src: Seq<ElementView>,
    editing: Option<Seq<char>>,
    fresh: Seq<Seq<char>>,
    fresh_groups: Seq<Seq<char>>,
    updated: u64,
    e: ElementView,
    j: int,
)
    requires
        0 <= j < src.len(),
        !src[j].is_deleted,
        e.container_id == Some(src[j].id) || e.bound_text_id == Some(src[j].id)
            || e.start_binding == Some(src[j].id) || e.end_binding == Some(src[j].id),
    ensures
        ({
            let c = fresh_copy(src, editing, fresh, fresh_groups, updated, e);
            let t = fresh_copy(src, editing, fresh, fresh_groups, updated, src[j]);
            &&& e.container_id == Some(src[j].id) ==> c.container_id == Some(t.id)
            &&& e.bound_text_id == Some(src[j].id) ==> c.bound_text_id == Some(t.id)
            &&& e.start_binding == Some(src[j].id) ==> c.start_binding == Some(t.id)
            &&& e.end_binding == Some(src[j].id) ==> c.end_binding == Some(t.id)
        }),
{
    lemma_last_such(src.len() as int, live_named(src, src[j].id));
    assert(live_named(src, src[j].id)(j));
}

} // verus!
