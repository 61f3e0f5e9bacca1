//! The selection as the properties panel reads it, and whose colours a pick sets.
//!
//! A label held together with its shape is still its shape's words: the panel reads and
//! styles it through the shape, so it is left out of what the panel reads.

use vstd::prelude::*;
use crate::delete::named;
use crate::element::{contains_id, idset, same_text, scene, sv, DrawElement, ElementView};
use crate::group::{first_such, lemma_filter_map_step, lemma_first_found, lemma_first_such};
use crate::style::ColorDomain;

verus! {

/// Where the first element with id `id` stands.
pub open spec fn named_at(s: Seq<ElementView>, id: Seq<char>) -> Option<int> {
    first_such(s.len() as int, |j: int| s[j].id == id)
}

/// Whether `e` is the live label of a selected shape.
pub open spec fn carried_label(s: Seq<ElementView>, sel: Set<Seq<char>>, e: ElementView) -> bool {
    &&& e.container_id is Some
    &&& sel.contains(e.container_id.unwrap())
    &&& named(s, e.container_id.unwrap()) is Some
    &&& named(s, e.container_id.unwrap()).unwrap().bound_text_id == Some(e.id)
    &&& named(s, e.id) is Some
    &&& !named(s, e.id).unwrap().is_deleted
}

/// What the panel reads of a selection listed as `sel`: for each id in turn, the element
/// it names, when that is live and not a label carried by a selected shape.
pub open spec fn panel_pick(s: Seq<ElementView>, sel: Seq<Seq<char>>) -> spec_fn(Seq<char>) -> Option<int> {
    |id: Seq<char>|
        match named_at(s, id) {
            Some(j) => if !s[j].is_deleted && !carried_label(s, Set::new(|x: Seq<char>| sel.contains(x)), s[j]) {
                Some(j)
            } else {
                None
            },
            None => None,
        }
}

/// The domain a colour pick reaches: notes only, other shapes only, or both; with
/// nothing it could reach, the notes' when a note is being drawn.
pub open spec fn domain(sticky: bool, regular: bool, sticky_tool: bool) -> ColorDomain {
    if sticky && !regular {
        ColorDomain::Sticky
    } else if sticky && regular {
        ColorDomain::Mixed
    } else if regular {
        ColorDomain::Regular
    } else if sticky_tool {
        ColorDomain::Sticky
    } else {
        ColorDomain::Regular
    }
}

/// Where the first element with id `id` stands.
pub(crate) fn position_named(elements: &[DrawElement], id: &String) -> (r: Option<usize>)
    ensures
        match r {
            Some(j) => j < elements.len() && named_at(scene(elements@), id@) == Some(j as int),
            None => named_at(scene(elements@), id@) is None,
        },
{
    let ghost s = scene(elements@);
    let ghost p = |j: int| s[j].id == id@;
    proof {
        lemma_first_such(s.len() as int, p);
    }
    let mut j: usize = 0;
    while j < elements.len()
        invariant
            j <= elements.len(),
            s == scene(elements@),
            p == (|j: int| s[j].id == id@),
            forall|k: int| 0 <= k < j ==> !#[trigger] p(k),
        decreases elements.len() - j,
    {
        assert(s[j as int] == elements@[j as int]@);
        if same_text(&elements[j].id, id) {
            proof {
                lemma_first_found(s.len() as int, p, j as int);
            }
            return Some(j);
        }
        j = j + 1;
    }
    None
}

/// Whether `element` is the live label of a shape in `selected`.
fn is_carried_label(elements: &[DrawElement], selected: &Vec<String>, element: &DrawElement) -> (r: bool)
    ensures
        r == carried_label(scene(elements@), idset(selected@), element@),
{
    let ghost s = scene(elements@);
    let c = match &element.container_id {
        Some(c) => c,
        None => {
            return false;
        },
    };
    if !contains_id(selected, c) {
        return false;
    }
    let ci = match position_named(elements, c) {
        Some(ci) => ci,
        None => {
            return false;
        },
    };
    assert(named(s, c@) == Some(s[ci as int]));
    assert(s[ci as int] == elements@[ci as int]@);
    let tied = match &elements[ci].bound_text_id {
        Some(b) => same_text(b, &element.id),
        None => false,
    };
    if !tied {
        return false;
    }
    match position_named(elements, &element.id) {
        Some(li) => {
            assert(s[li as int] == elements@[li as int]@);
            !elements[li].is_deleted
        },
        None => false,
    }
}

/// The selection as the panel reads it: the elements `selected` names, in its order,
/// live and less the labels its shapes carry; as indices into `elements`.
pub fn panel_selection(elements: &[DrawElement], selected: &Vec<String>) -> (r: Vec<usize>)
    ensures
        Seq::new(r@.len(), |k: int| r@[k] as int) == sv(selected@).filter_map(
            panel_pick(scene(elements@), sv(selected@)),
        ),
{
    let ghost s = scene(elements@);
    let ghost sel = sv(selected@);
    let ghost f = panel_pick(s, sel);
    assert(Set::new(|x: Seq<char>| sel.contains(x)) =~= idset(selected@));
    let mut out: Vec<usize> = Vec::new();
    let mut i: usize = 0;
    while i < selected.len()
        invariant
            i <= selected.len(),
            s == scene(elements@),
            sel == sv(selected@),
            f == panel_pick(s, sel),
            Set::new(|x: Seq<char>| sel.contains(x)) == idset(selected@),
            Seq::new(out@.len(), |k: int| out@[k] as int) == sel.take(i as int).filter_map(f),
        decreases selected.len() - i,
    {
        proof {
            lemma_filter_map_step(sel, f, i as int);
        }
        assert(sel[i as int] == selected@[i as int]@);
        match position_named(elements, &selected[i]) {
            Some(j) => {
                assert(s[j as int] == elements@[j as int]@);
                if !elements[j].is_deleted && !is_carried_label(elements, selected, &elements[j]) {
                    let ghost before = Seq::new(out@.len(), |k: int| out@[k] as int);
                    out.push(j);
                    assert(Seq::new(out@.len(), |k: int| out@[k] as int) =~= before.push(j as int));
                }
            },
            None => {},
        }
        i = i + 1;
    }
    assert(sel.take(selected.len() as int) =~= sel);
    out
}

/// The domain a colour pick reaches, from whether it reaches notes, other shapes, and
/// whether a note is being drawn.
pub fn color_domain_of(sticky: bool, regular: bool, sticky_tool: bool) -> (r: ColorDomain)
    ensures
        r == domain(sticky, regular, sticky_tool),
{
    if sticky && !regular {
        ColorDomain::Sticky
    } else if sticky && regular {
        ColorDomain::Mixed
    } else if regular {
        ColorDomain::Regular
    } else if sticky_tool {
        ColorDomain::Sticky
    } else {
        ColorDomain::Regular
    }
}

} // verus!
