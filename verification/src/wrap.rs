//! "Wrap text in a container": each selected free text gets a rectangle of its own, in its
//! groups and frame and directly below it in the stack. The text becomes the rectangle's
//! label, and the arrows bound to the text are bound to the rectangle instead.

use vstd::prelude::*;
use crate::element::{copy_ids, copy_opt, ov, scene, sv, DrawElement, DrawElementType, ElementView};
use crate::group::{first_such, lemma_filter_step, lemma_first_found, lemma_first_such};
use crate::label::{as_label, free_text, is_free_text, labelled};
use crate::panel::{panel_pick, panel_selection};

verus! {

/// The indices of the texts a wrap acts on: the panel's reading of the selection `sel`,
/// in its order, less what is not a free text or may not be restyled.
pub open spec fn wrap_texts(s: Seq<ElementView>, sel: Seq<Seq<char>>, restylable: Seq<bool>) -> Seq<int> {
    sel.filter_map(panel_pick(s, sel)).filter(|i: int| free_text(s[i]) && restylable[i])
}

/// Where the element at `i` stands among the wrapped `texts`.
pub open spec fn wrap_rank(texts: Seq<int>, i: int) -> Option<int> {
    first_such(texts.len() as int, at_rank(texts, i))
}

/// Whether `texts` holds `i` at `k`.
pub open spec fn at_rank(texts: Seq<int>, i: int) -> spec_fn(int) -> bool {
    |k: int| texts[k] == i
}

/// The first of the wrapped `texts` that has the id `x`.
pub open spec fn home_rank(s: Seq<ElementView>, texts: Seq<int>, x: Seq<char>) -> Option<int> {
    first_such(texts.len() as int, |k: int| s[texts[k]].id == x)
}

/// A line end bound to `b`, once the texts are wrapped: bound to the container of the text
/// it was bound to.
pub open spec fn moved_end(
    s: Seq<ElementView>,
    texts: Seq<int>,
    fresh: Seq<Seq<char>>,
    b: Option<Seq<char>>,
) -> Option<Seq<char>> {
    match b {
        Some(x) => match home_rank(s, texts, x) {
            Some(k) => Some(fresh[k]),
            None => b,
        },
        None => None,
    }
}

/// The rectangle a text `t` is wrapped in: `c`, in the text's groups and frame, carrying it,
/// with the background `background`.
pub open spec fn wrapper(t: ElementView, c: Seq<char>, background: Seq<char>) -> ElementView {
    ElementView {
        id: c,
        kind: DrawElementType::Rectangle,
        is_deleted: false,
        locked: false,
        group_ids: t.group_ids,
        frame_id: t.frame_id,
        container_id: None,
        bound_text_id: Some(t.id),
        start_binding: None,
        end_binding: None,
        elbowed: false,
        polygon: None,
        point_count: 0,
        background_color: background,
        text_align: None,
        vertical_align: None,
        auto_resize: None,
        version: 1,
        version_nonce: 0,
        updated: 0,
        data_url: None,
        start_arrowhead: None,
        end_arrowhead: None,
    }
}

/// What the element at `i` becomes: a wrapped text its rectangle and then itself as the
/// label; an arrow rebound where it was bound to a wrapped text; anything else itself.
pub open spec fn wrapped_at(
    s: Seq<ElementView>,
    texts: Seq<int>,
    fresh: Seq<Seq<char>>,
    background: Seq<char>,
    i: int,
) -> Seq<ElementView> {
    match wrap_rank(texts, i) {
        Some(k) => seq![wrapper(s[i], fresh[k], background), labelled(s[i], fresh[k])],
        None => if s[i].kind == DrawElementType::Arrow {
            seq![
                ElementView {
                    start_binding: moved_end(s, texts, fresh, s[i].start_binding),
                    end_binding: moved_end(s, texts, fresh, s[i].end_binding),
                    ..s[i]
                },
            ]
        } else {
            seq![s[i]]
        },
    }
}

/// The first `n` elements of the board, wrapped.
pub open spec fn wrapped_upto(
    s: Seq<ElementView>,
    texts: Seq<int>,
    fresh: Seq<Seq<char>>,
    background: Seq<char>,
    n: int,
) -> Seq<ElementView>
    decreases n,
{
    if n <= 0 {
        Seq::empty()
    } else {
        wrapped_upto(s, texts, fresh, background, n - 1) + wrapped_at(s, texts, fresh, background, n - 1)
    }
}

/// What a wrap does: the board after it, and the rectangles made, in the texts' order,
/// which are what is selected after it.
pub struct WrapPlan {
    pub board: Vec<DrawElement>,
    pub containers: Vec<String>,
}

/// A `filter_map` is no longer than what it reads.
proof fn lemma_filter_map_len<A, B>(s: Seq<A>, f: spec_fn(A) -> Option<B>)
    ensures
        s.filter_map(f).len() <= s.len(),
    decreases s.len(),
{
    if s.len() > 0 {
        lemma_filter_map_len(s.drop_last(), f);
    }
}

/// Each index the panel reads names an element of the board.
proof fn lemma_picked_in_range(s: Seq<ElementView>, sel: Seq<Seq<char>>, i: int)
    requires
        sel.filter_map(panel_pick(s, sel)).contains(i),
    ensures
        0 <= i < s.len(),
{
    sel.lemma_filter_map_contains(panel_pick(s, sel), i);
    let id = choose|id: Seq<char>| #[trigger] sel.contains(id) && panel_pick(s, sel)(id) == Some(i);
    lemma_first_such(s.len() as int, |j: int| s[j].id == id);
}

/// Where `i` stands in `texts`.
fn rank_of(texts: &Vec<usize>, i: usize) -> (r: Option<usize>)
    ensures
        match r {
            Some(k) => k < texts.len() && wrap_rank(Seq::new(texts@.len(), |j: int| texts@[j] as int), i as int)
                == Some(k as int),
            None => wrap_rank(Seq::new(texts@.len(), |j: int| texts@[j] as int), i as int) is None,
        },
{
    let ghost t = Seq::new(texts@.len(), |j: int| texts@[j] as int);
    let ghost p = at_rank(t, i as int);
    proof {
        lemma_first_such(t.len() as int, p);
    }
    let mut k: usize = 0;
    while k < texts.len()
        invariant
            k <= texts.len(),
            t == Seq::new(texts@.len(), |j: int| texts@[j] as int),
            p == at_rank(t, i as int),
            forall|j: int| 0 <= j < k ==> !#[trigger] p(j),
        decreases texts.len() - k,
    {
        if texts[k] == i {
            proof {
                lemma_first_found(t.len() as int, p, k as int);
            }
            return Some(k);
        }
        k = k + 1;
    }
    None
}

/// The first of `texts` whose element has the id `x`.
fn home_of(elements: &[DrawElement], texts: &Vec<usize>, x: &String) -> (r: Option<usize>)
    requires
        forall|k: int| 0 <= k < texts.len() ==> #[trigger] texts@[k] < elements.len(),
    ensures
        match r {
            Some(k) => k < texts.len() && home_rank(
                scene(elements@),
                Seq::new(texts@.len(), |j: int| texts@[j] as int),
                x@,
            ) == Some(k as int),
            None => home_rank(
                scene(elements@),
                Seq::new(texts@.len(), |j: int| texts@[j] as int),
                x@,
            ) is None,
        },
{
    let ghost s = scene(elements@);
    let ghost t = Seq::new(texts@.len(), |j: int| texts@[j] as int);
    let ghost p = |k: int| s[t[k]].id == x@;
    proof {
        lemma_first_such(t.len() as int, p);
    }
    let mut k: usize = 0;
    while k < texts.len()
        invariant
            k <= texts.len(),
            forall|k: int| 0 <= k < texts.len() ==> #[trigger] texts@[k] < elements.len(),
            s == scene(elements@),
            t == Seq::new(texts@.len(), |j: int| texts@[j] as int),
            p == (|k: int| s[t[k]].id == x@),
            forall|j: int| 0 <= j < k ==> !#[trigger] p(j),
        decreases texts.len() - k,
    {
        assert(s[t[k as int]] == elements@[texts@[k as int] as int]@);
        if elements[texts[k]].id == *x {
            proof {
                lemma_first_found(t.len() as int, p, k as int);
            }
            return Some(k);
        }
        k = k + 1;
    }
    None
}

/// A line end bound to `b`, once the texts are wrapped in `fresh`.
fn moved_binding(
    elements: &[DrawElement],
    texts: &Vec<usize>,
    fresh: &Vec<String>,
    b: &Option<String>,
) -> (r: Option<String>)
    requires
        forall|k: int| 0 <= k < texts.len() ==> #[trigger] texts@[k] < elements.len(),
        texts.len() <= fresh.len(),
    ensures
        ov(r) == moved_end(
            scene(elements@),
            Seq::new(texts@.len(), |j: int| texts@[j] as int),
            sv(fresh@),
            ov(*b),
        ),
{
    match b {
        Some(x) => match home_of(elements, texts, x) {
            Some(k) => Some(fresh[k].clone()),
            None => copy_opt(b),
        },
        None => None,
    }
}

/// The rectangle text `text` is wrapped in, `id`, with the background `background`.
fn wrapper_for(text: &DrawElement, id: String, background: &String) -> (r: DrawElement)
    ensures
        r@ == wrapper(text@, id@, background@),
{
    let mut c = DrawElement::new(id, DrawElementType::Rectangle);
    c.group_ids = copy_ids(&text.group_ids);
    c.frame_id = copy_opt(&text.frame_id);
    c.bound_text_id = Some(text.id.clone());
    c.background_color = background.clone();
    assert(c@ =~= wrapper(text@, c@.id, background@));
    c
}

/// Wraps each selected free text that may be restyled (`restylable`, one flag for each
/// element) in a rectangle of its own, named by `fresh_ids` in the order the panel reads
/// the selection, with the background `background`.
pub fn wrap_plan(
    elements: &[DrawElement],
    selected: &Vec<String>,
    restylable: &[bool],
    fresh_ids: &Vec<String>,
    background: &String,
) -> (r: WrapPlan)
    requires
        restylable.len() == elements.len(),
        fresh_ids.len() >= selected.len(),
    ensures
        ({
            let s = scene(elements@);
            let texts = wrap_texts(s, sv(selected@), restylable@);
            &&& scene(r.board@) == wrapped_upto(s, texts, sv(fresh_ids@), background@, s.len() as int)
            &&& sv(r.containers@) == sv(fresh_ids@).take(texts.len() as int)
        }),
{
    let ghost s = scene(elements@);
    let ghost sel = sv(selected@);
    let ghost keep = |i: int| free_text(s[i]) && restylable@[i];
    let picked = panel_selection(elements, selected);
    let ghost ps = Seq::new(picked@.len(), |k: int| picked@[k] as int);
    proof {
        lemma_filter_map_len(sel, panel_pick(s, sel));
        assert forall|k: int| 0 <= k < picked.len() implies #[trigger] picked@[k] < elements.len() by {
            assert(ps[k] == picked@[k] as int);
            assert(sel.filter_map(panel_pick(s, sel)).contains(ps[k]));
            lemma_picked_in_range(s, sel, ps[k]);
        }
    }
    let mut texts: Vec<usize> = Vec::new();
    let mut k: usize = 0;
    while k < picked.len()
        invariant
            k <= picked.len(),
            picked.len() <= selected.len(),
            restylable.len() == elements.len(),
            forall|j: int| 0 <= j < picked.len() ==> #[trigger] picked@[j] < elements.len(),
            s == scene(elements@),
            ps == Seq::new(picked@.len(), |j: int| picked@[j] as int),
            keep == (|i: int| free_text(s[i]) && restylable@[i]),
            Seq::new(texts@.len(), |j: int| texts@[j] as int) == ps.take(k as int).filter(keep),
            texts.len() <= k,
            forall|j: int| 0 <= j < texts.len() ==> #[trigger] texts@[j] < elements.len(),
        decreases picked.len() - k,
    {
        proof {
            lemma_filter_step(ps, keep, k as int);
        }
        let i = picked[k];
        assert(s[i as int] == elements@[i as int]@);
        if is_free_text(&elements[i]) && restylable[i] {
            let ghost before = Seq::new(texts@.len(), |j: int| texts@[j] as int);
            texts.push(i);
            assert(Seq::new(texts@.len(), |j: int| texts@[j] as int) =~= before.push(i as int));
        }
        k = k + 1;
    }
    assert(ps.take(picked.len() as int) =~= ps);
    let ghost t = Seq::new(texts@.len(), |j: int| texts@[j] as int);
    let ghost fresh = sv(fresh_ids@);
    assert(t == wrap_texts(s, sel, restylable@));
    let mut containers: Vec<String> = Vec::new();
    let mut c: usize = 0;
    while c < texts.len()
        invariant
            c <= texts.len(),
            texts.len() <= fresh_ids.len(),
            fresh == sv(fresh_ids@),
            sv(containers@) == fresh.take(c as int),
        decreases texts.len() - c,
    {
        let ghost before = sv(containers@);
        containers.push(fresh_ids[c].clone());
        assert(sv(containers@) =~= before.push(fresh[c as int]));
        assert(fresh.take(c + 1) =~= fresh.take(c as int).push(fresh[c as int]));
        c = c + 1;
    }
    let mut board: Vec<DrawElement> = Vec::new();
    let mut i: usize = 0;
    while i < elements.len()
        invariant
            i <= elements.len(),
            texts.len() <= fresh_ids.len(),
            forall|j: int| 0 <= j < texts.len() ==> #[trigger] texts@[j] < elements.len(),
            s == scene(elements@),
            t == Seq::new(texts@.len(), |j: int| texts@[j] as int),
            fresh == sv(fresh_ids@),
            scene(board@) == wrapped_upto(s, t, fresh, background@, i as int),
        decreases elements.len() - i,
    {
        let ghost before = scene(board@);
        assert(s[i as int] == elements@[i as int]@);
        match rank_of(&texts, i) {
            Some(k) => {
                let rect = wrapper_for(&elements[i], fresh_ids[k].clone(), background);
                board.push(rect);
                let label = as_label(elements[i].duplicate(), fresh_ids[k].as_str());
                board.push(label);
                assert(scene(board@) =~= before + wrapped_at(s, t, fresh, background@, i as int));
            },
            None => {
                if elements[i].kind == DrawElementType::Arrow {
                    let mut arrow = elements[i].duplicate();
                    arrow.start_binding = moved_binding(elements, &texts, fresh_ids, &elements[i].start_binding);
                    arrow.end_binding = moved_binding(elements, &texts, fresh_ids, &elements[i].end_binding);
                    board.push(arrow);
                } else {
                    board.push(elements[i].duplicate());
                }
                assert(scene(board@) =~= before + wrapped_at(s, t, fresh, background@, i as int));
            },
        }
        i = i + 1;
    }
    WrapPlan { board, containers }
}

} // verus!
