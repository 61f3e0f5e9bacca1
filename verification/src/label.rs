//! Labels: which elements can carry text, which texts stand alone, and what binding a
//! text to a container writes on it.

use vstd::prelude::*;
use crate::element::{DrawElement, DrawElementType, ElementView, TextAlign, VerticalAlign};

verus! {

/// A kind that can carry a label: the three shapes, and the arrow. Never a line.
pub open spec fn text_container(kind: DrawElementType) -> bool {
    ||| kind == DrawElementType::Rectangle
    ||| kind == DrawElementType::Diamond
    ||| kind == DrawElementType::Ellipse
    ||| kind == DrawElementType::Arrow
}

/// A text on its own: a text written in no container.
pub open spec fn free_text(e: ElementView) -> bool {
    e.kind == DrawElementType::Text && e.container_id is None
}

/// `text` made the label of `container`: tied to it, centred both ways, and sizing
/// itself.
pub open spec fn labelled(text: ElementView, container: Seq<char>) -> ElementView {
    ElementView {
        container_id: Some(container),
        text_align: Some(TextAlign::Center),
        vertical_align: Some(VerticalAlign::Middle),
        auto_resize: None,
        ..text
    }
}

/// Whether `element` can carry a label.
pub fn holds_text(element: &DrawElement) -> (r: bool)
    ensures
        r == text_container(element@.kind),
{
    match element.kind {
        DrawElementType::Rectangle | DrawElementType::Diamond | DrawElementType::Ellipse
        | DrawElementType::Arrow => true,
        _ => false,
    }
}

/// Whether `element` is a text on its own.
pub fn is_free_text(element: &DrawElement) -> (r: bool)
    ensures
        r == free_text(element@),
{
    element.kind == DrawElementType::Text && element.container_id.is_none()
}

/// Makes `text` the label of `container_id`, centred in the middle and sizing itself.
pub fn as_label(text: DrawElement, container_id: &str) -> (r: DrawElement)
    ensures
        r@ == labelled(text@, container_id@),
{
    let ghost before = text@;
    let mut text = text;
    text.container_id = Some(container_id.to_owned());
    text.text_align = Some(TextAlign::Center);
    text.vertical_align = Some(VerticalAlign::Middle);
    text.auto_resize = None;
    assert(text@ =~= labelled(before, container_id@));
    text
}

} // verus!

verus! {

/// The pair a "bind text to the container" acts on: exactly two selected, the text the
/// first if it is a free text and the second otherwise; bound when the text is free, the
/// other can carry a label and carries none, and a style may change both.
pub open spec fn bindable_pair(
    s: Seq<ElementView>,
    labelled: Seq<bool>,
    restylable: Seq<bool>,
) -> Option<(int, int)> {
    if s.len() != 2 {
        None
    } else {
        let (t, c) = if free_text(s[0]) {
            (0int, 1int)
        } else {
            (1int, 0int)
        };
        if free_text(s[t]) && text_container(s[c].kind) && !labelled[c] && restylable[t] && restylable[c] {
            Some((t, c))
        } else {
            None
        }
    }
}

/// The pair "bind text to the container" acts on, as (text, container) indices into
/// `selected`. `labelled[i]` says whether the `i`-th carries a live label, `restylable[i]`
/// whether a style may change it.
pub fn bind_pair(selected: &[&DrawElement], labelled: &[bool], restylable: &[bool]) -> (r: Option<(usize, usize)>)
    requires
        labelled.len() == selected.len(),
        restylable.len() == selected.len(),
    ensures
        match r {
            Some((t, c)) => bindable_pair(
                Seq::new(selected@.len(), |i: int| selected@[i]@),
                labelled@,
                restylable@,
            ) == Some((t as int, c as int)),
            None => bindable_pair(
                Seq::new(selected@.len(), |i: int| selected@[i]@),
                labelled@,
                restylable@,
            ) is None,
        },
{
    let ghost s = Seq::new(selected@.len(), |i: int| selected@[i]@);
    if selected.len() != 2 {
        return None;
    }
    assert(s[0] == selected@[0]@);
    assert(s[1] == selected@[1]@);
    let (t, c): (usize, usize) = if is_free_text(selected[0]) {
        (0, 1)
    } else {
        (1, 0)
    };
    if is_free_text(selected[t]) && holds_text(selected[c]) && !labelled[c] && restylable[t] && restylable[c] {
        Some((t, c))
    } else {
        None
    }
}

/// `container` carrying `text` as its label.
pub open spec fn carrying(container: ElementView, text: Seq<char>) -> ElementView {
    ElementView { bound_text_id: Some(text), ..container }
}

/// Binds `text` into `container`: the text becomes its label, centred and sizing itself,
/// and the container carries it. Layout is the caller's.
pub fn bind_label(text: DrawElement, container: DrawElement) -> (r: (DrawElement, DrawElement))
    ensures
        r.0@ == labelled(text@, container@.id),
        r.1@ == carrying(container@, text@.id),
{
    let mut container = container;
    let ghost before = container@;
    container.bound_text_id = Some(text.id.clone());
    assert(container@ =~= carrying(before, text@.id));
    let label = as_label(text, container.id.as_str());
    (label, container)
}

/// A label let go: free text again.
pub open spec fn freed(text: ElementView) -> ElementView {
    ElementView { container_id: None, ..text }
}

/// A container without its label.
pub open spec fn emptied(container: ElementView) -> ElementView {
    ElementView { bound_text_id: None, ..container }
}

/// Unbinds a label from its container: the text is free again and the container carries
/// nothing. Where the text then stands is the caller's.
pub fn unbind_label(container: DrawElement, text: DrawElement) -> (r: (DrawElement, DrawElement))
    ensures
        r.0@ == emptied(container@),
        r.1@ == freed(text@),
{
    let mut container = container;
    let mut text = text;
    let ghost c0 = container@;
    let ghost t0 = text@;
    container.bound_text_id = None;
    text.container_id = None;
    assert(container@ =~= emptied(c0));
    assert(text@ =~= freed(t0));
    (container, text)
}

/// Binding ties a text and a container both ways, and unbinding right after unties them
/// both: the text is free again and the container carries no label, as before.
pub proof fn lemma_bind_then_unbind(text: ElementView, container: ElementView)
    requires
        free_text(text),
        container.bound_text_id is None,
    ensures
        labelled(text, container.id).container_id == Some(container.id),
        carrying(container, text.id).bound_text_id == Some(text.id),
        free_text(freed(labelled(text, container.id))),
        emptied(carrying(container, text.id)) == container,
        freed(labelled(text, container.id)).id == text.id,
{
    assert(emptied(carrying(container, text.id)) =~= container);
}

} // verus!
