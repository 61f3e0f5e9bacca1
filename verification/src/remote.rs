//! Merging a peer's patch into the board: what happens to each element it sends, and the
//! stacking order it may send along.
//!
//! Merge is by id, last writer wins: of two copies of an element the one with the winning
//! stamp stays, so every client that sees the same copies settles on the same one. An
//! element being changed here is not overwritten: the peer's copy is set aside, and the
//! best such copy kept.

use vstd::prelude::*;
use crate::delete::named;
use crate::element::{contains_id, idset, same_text, scene, sv, DrawElement, ElementView};
use crate::panel::{named_at, position_named};
use crate::sync::{brings_picture, inherit_picture, picture_missing, remote_wins, stamp_wins};

verus! {

/// What merging one element of a peer's patch does.
#[derive(Clone, Copy, Debug, PartialEq, Eq, Structural)]
pub enum RemoteStep {
    /// Only the picture is new: it is written onto the board's copy.
    TakePicture,
    /// The element is being changed here: the peer's copy is set aside as the refused one.
    Refuse,
    /// The element is being changed here, and the copy already set aside wins: nothing.
    KeepRefused,
    /// The peer's copy goes on the board, with the picture it was sent without.
    Accept,
    /// The board's copy wins: nothing.
    Ignore,
}

/// Whether the only thing to take from `incoming` is its picture.
pub open spec fn picture_only(incoming: ElementView, existing: ElementView) -> bool {
    picture_missing(existing, incoming) && incoming.version == existing.version
        && incoming.version_nonce == existing.version_nonce
}

/// What merging `incoming` does, given the board's copy of it, whether it is being
/// changed here, and the copy already set aside for it.
pub open spec fn remote_step(
    incoming: ElementView,
    existing: Option<ElementView>,
    pending: bool,
    refused: Option<ElementView>,
) -> RemoteStep {
    if existing is Some && picture_only(incoming, existing.unwrap()) {
        RemoteStep::TakePicture
    } else if pending {
        if refused is Some && !stamp_wins(incoming, refused.unwrap()) {
            RemoteStep::KeepRefused
        } else {
            RemoteStep::Refuse
        }
    } else if existing is None || stamp_wins(incoming, existing.unwrap()) {
        RemoteStep::Accept
    } else {
        RemoteStep::Ignore
    }
}

/// The copy an accepted element goes on the board as: the peer's, with the board's
/// picture where it was sent without one.
pub open spec fn accepted(incoming: ElementView, existing: Option<ElementView>) -> ElementView {
    match existing {
        Some(e) => if picture_missing(incoming, e) {
            ElementView { data_url: e.data_url, ..incoming }
        } else {
            incoming
        },
        None => incoming,
    }
}

/// The board's copy of an element being changed nowhere here, once `incoming` is merged.
pub open spec fn received(existing: Option<ElementView>, incoming: ElementView) -> Option<ElementView> {
    match remote_step(incoming, existing, false, None) {
        RemoteStep::TakePicture => Some(
            ElementView { data_url: incoming.data_url, ..existing.unwrap() },
        ),
        RemoteStep::Accept => Some(accepted(incoming, existing)),
        _ => existing,
    }
}

/// A stacking order a peer sent: the live elements it lists, in its order and each at the
/// place it is first listed, then everything it leaves out, in board order. An id names
/// the first element that has it.
pub open spec fn listed_first(s: Seq<ElementView>, order: Seq<Seq<char>>) -> Seq<ElementView> {
    Seq::new(order.len(), |i: int| i).filter_map(listed_at(s, order)) + s.filter(
        |e: ElementView| !order.contains(e.id),
    )
}

/// The element the `i`th id of `order` stands for: the live one it names, unless an
/// earlier id was the same.
pub open spec fn listed_at(s: Seq<ElementView>, order: Seq<Seq<char>>) -> spec_fn(int) -> Option<ElementView> {
    |i: int|
        if order.take(i).contains(order[i]) {
            None
        } else {
            first_live(s, order[i])
        }
}

/// The first element of `s` with id `id`, when it is live.
pub open spec fn first_live(s: Seq<ElementView>, id: Seq<char>) -> Option<ElementView> {
    match crate::group::first_such(s.len() as int, |j: int| s[j].id == id) {
        Some(j) => if !s[j].is_deleted {
            Some(s[j])
        } else {
            None
        },
        None => None,
    }
}

/// Whether a change to `e` shows in the properties panel: it is selected, or it is the
/// label of something selected.
pub open spec fn shows_in_panel(e: ElementView, selected: Set<Seq<char>>) -> bool {
    selected.contains(e.id) || (e.container_id is Some && selected.contains(e.container_id.unwrap()))
}

/// `s` with `e` in place of the first element that has its id, or on top where none has.
pub open spec fn put(s: Seq<ElementView>, e: ElementView) -> Seq<ElementView> {
    match named_at(s, e.id) {
        Some(j) => s.update(j, e),
        None => s.push(e),
    }
}

/// The board and the copies set aside once a peer's `incoming` is merged; `pending` holds
/// the ids being changed here. The board's copy of an element, and the copy set aside for
/// it, are the first with its id.
pub open spec fn merged(
    board: Seq<ElementView>,
    refused: Seq<ElementView>,
    pending: Set<Seq<char>>,
    incoming: ElementView,
) -> (Seq<ElementView>, Seq<ElementView>) {
    let existing = named(board, incoming.id);
    match remote_step(incoming, existing, pending.contains(incoming.id), named(refused, incoming.id)) {
        RemoteStep::TakePicture => (
            put(board, ElementView { data_url: incoming.data_url, ..existing.unwrap() }),
            refused,
        ),
        RemoteStep::Refuse => (board, put(refused, incoming)),
        RemoteStep::Accept => (put(board, accepted(incoming, existing)), refused),
        _ => (board, refused),
    }
}

/// Puts `e` in place of the element at `at`, the first with its id, or on top.
fn put_element(v: &mut Vec<DrawElement>, at: Option<usize>, e: DrawElement)
    requires
        match at {
            Some(j) => named_at(scene(old(v)@), e@.id) == Some(j as int),
            None => named_at(scene(old(v)@), e@.id) is None,
        },
    ensures
        scene(final(v)@) == put(scene(old(v)@), e@),
{
    proof {
        crate::group::lemma_first_such(v.len() as int, |j: int| scene(v@)[j].id == e@.id);
    }
    match at {
        Some(j) => {
            let ghost before = scene(v@);
            v[j] = e;
            assert(scene(v@) =~= before.update(j as int, e@));
        },
        None => {
            let ghost before = scene(v@);
            v.push(e);
            assert(scene(v@) =~= before.push(e@));
        },
    }
}

/// Merges one element of a peer's patch into `board`, setting it aside in `refused` when it
/// is being changed here (`pending`); what the merge did. The board changes where that is
/// `TakePicture` or `Accept`.
pub fn merge_remote(
    board: &mut Vec<DrawElement>,
    refused: &mut Vec<DrawElement>,
    pending: &Vec<String>,
    incoming: DrawElement,
) -> (r: RemoteStep)
    ensures
        (scene(final(board)@), scene(final(refused)@)) == merged(
            scene(old(board)@),
            scene(old(refused)@),
            idset(pending@),
            incoming@,
        ),
        r == remote_step(
            incoming@,
            named(scene(old(board)@), incoming@.id),
            idset(pending@).contains(incoming@.id),
            named(scene(old(refused)@), incoming@.id),
        ),
{
    let ghost b = scene(board@);
    let ghost k = scene(refused@);
    let at = position_named(board, &incoming.id);
    let kept_at = position_named(refused, &incoming.id);
    let is_pending = contains_id(pending, &incoming.id);
    proof {
        crate::group::lemma_first_such(b.len() as int, |j: int| b[j].id == incoming@.id);
        crate::group::lemma_first_such(k.len() as int, |j: int| k[j].id == incoming@.id);
    }
    let step = {
        let existing = match at {
            Some(j) => Some(&board[j]),
            None => None,
        };
        let kept = match kept_at {
            Some(i) => Some(&refused[i]),
            None => None,
        };
        remote_step_for(&incoming, existing, is_pending, kept)
    };
    match step {
        RemoteStep::TakePicture => {
            let j = at.unwrap();
            let mut next = board[j].duplicate();
            next.data_url = incoming.data_url;
            put_element(board, at, next);
        },
        RemoteStep::Refuse => {
            put_element(refused, kept_at, incoming);
        },
        RemoteStep::Accept => {
            let copy = match at {
                Some(j) => accept_copy(incoming, Some(&board[j])),
                None => accept_copy(incoming, None),
            };
            put_element(board, at, copy);
        },
        _ => {},
    }
    step
}

/// What merging `incoming` does. `existing` is the board's copy of it, `pending` whether
/// it is being changed here, and `refused` the copy already set aside for it.
pub fn remote_step_for(
    incoming: &DrawElement,
    existing: Option<&DrawElement>,
    pending: bool,
    refused: Option<&DrawElement>,
) -> (r: RemoteStep)
    ensures
        r == remote_step(
            incoming@,
            match existing {
                Some(e) => Some(e@),
                None => None,
            },
            pending,
            match refused {
                Some(k) => Some(k@),
                None => None,
            },
        ),
{
    if let Some(e) = existing {
        if brings_picture(incoming, e) {
            return RemoteStep::TakePicture;
        }
    }
    if pending {
        return match refused {
            Some(kept) => if !remote_wins(incoming, kept) {
                RemoteStep::KeepRefused
            } else {
                RemoteStep::Refuse
            },
            None => RemoteStep::Refuse,
        };
    }
    match existing {
        None => RemoteStep::Accept,
        Some(e) => if remote_wins(incoming, e) {
            RemoteStep::Accept
        } else {
            RemoteStep::Ignore
        },
    }
}

/// The copy of an accepted element that goes on the board.
pub fn accept_copy(incoming: DrawElement, existing: Option<&DrawElement>) -> (r: DrawElement)
    ensures
        r@ == accepted(
            incoming@,
            match existing {
                Some(e) => Some(e@),
                None => None,
            },
        ),
{
    let mut element = incoming;
    if let Some(e) = existing {
        inherit_picture(&mut element, e);
    }
    element
}

/// Whether a peer's change to `element` shows in the properties panel.
pub fn touches_panel(element: &DrawElement, selected: &Vec<String>) -> (r: bool)
    ensures
        r == shows_in_panel(element@, idset(selected@)),
{
    contains_id(selected, &element.id) || match &element.container_id {
        Some(c) => contains_id(selected, c),
        None => false,
    }
}

/// The first element of `elements` with id `id`, when it is live.
fn find_live(elements: &[DrawElement], id: &String) -> (r: Option<usize>)
    ensures
        match r {
            Some(j) => j < elements.len() && first_live(scene(elements@), id@) == Some(
                scene(elements@)[j as int],
            ),
            None => first_live(scene(elements@), id@) is None,
        },
{
    let ghost s = scene(elements@);
    let ghost p = |j: int| s[j].id == id@;
    proof {
        crate::group::lemma_first_such(s.len() as int, p);
    }
    let mut j: usize = 0;
    while j < elements.len()
        invariant
            j <= elements.len(),
            s == scene(elements@),
            p == (|j: int| s[j].id == id@),
            forall|k: int| 0 <= k < j ==> !#[trigger] p(k),
        decreases elements.len() - j,
    {
        assert(s[j as int] == elements@[j as int]@);
        if same_text(&elements[j].id, id) {
            proof {
                crate::group::lemma_first_found(s.len() as int, p, j as int);
            }
            if elements[j].is_deleted {
                return None;
            }
            return Some(j);
        }
        j = j + 1;
    }
    None
}

/// The board restacked by a peer's `order`: the live elements it lists, in its order,
/// then everything it leaves out, on top and in board order.
pub fn remote_order(elements: &[DrawElement], order: &[String]) -> (r: Vec<DrawElement>)
    ensures
        scene(r@) == listed_first(scene(elements@), sv(order@)),
{
    let ghost s = scene(elements@);
    let ghost o = sv(order@);
    let ghost idx = Seq::new(o.len(), |i: int| i);
    let ghost f = listed_at(s, o);
    let mut out: Vec<DrawElement> = Vec::new();
    let mut seen: Vec<String> = Vec::new();
    let mut i: usize = 0;
    while i < order.len()
        invariant
            i <= order.len(),
            s == scene(elements@),
            o == sv(order@),
            idx == Seq::new(o.len(), |i: int| i),
            f == listed_at(s, o),
            sv(seen@) == o.take(i as int),
            scene(out@) == idx.take(i as int).filter_map(f),
        decreases order.len() - i,
    {
        proof {
            crate::group::lemma_filter_map_step(idx, f, i as int);
        }
        assert(idx[i as int] == i as int);
        assert(o[i as int] == order@[i as int]@);
        let again = contains_id(&seen, &order[i]);
        if !again {
            match find_live(elements, &order[i]) {
                Some(j) => {
                    let ghost before = scene(out@);
                    out.push(elements[j].duplicate());
                    assert(scene(out@) =~= before.push(s[j as int]));
                },
                None => {},
            }
        }
        let ghost seen_before = sv(seen@);
        seen.push(order[i].clone());
        assert(sv(seen@) =~= seen_before.push(o[i as int]));
        assert(o.take(i + 1) =~= o.take(i as int).push(o[i as int]));
        i = i + 1;
    }
    assert(idx.take(order.len() as int) =~= idx);
    let ghost listed = scene(out@);
    let ghost keep = |e: ElementView| !o.contains(e.id);
    let mut k: usize = 0;
    while k < elements.len()
        invariant
            k <= elements.len(),
            s == scene(elements@),
            o == sv(order@),
            keep == (|e: ElementView| !o.contains(e.id)),
            scene(out@) == listed + s.take(k as int).filter(keep),
        decreases elements.len() - k,
    {
        proof {
            crate::group::lemma_filter_step(s, keep, k as int);
        }
        assert(s[k as int] == elements@[k as int]@);
        if !is_listed(order, &elements[k].id) {
            let ghost before = scene(out@);
            out.push(elements[k].duplicate());
            assert(scene(out@) =~= before.push(s[k as int]));
        }
        k = k + 1;
    }
    assert(s.take(elements.len() as int) =~= s);
    out
}

/// Whether `order` lists `id`.
fn is_listed(order: &[String], id: &String) -> (r: bool)
    ensures
        r == sv(order@).contains(id@),
{
    let mut i: usize = 0;
    while i < order.len()
        invariant
            i <= order.len(),
            forall|j: int| 0 <= j < i ==> order@[j]@ != id@,
        decreases order.len() - i,
    {
        if same_text(&order[i], id) {
            assert(sv(order@)[i as int] == id@);
            return true;
        }
        i = i + 1;
    }
    proof {
        if sv(order@).contains(id@) {
            let j = choose|j: int| 0 <= j < sv(order@).len() && sv(order@)[j] == id@;
            assert(order@[j]@ == id@);
        }
    }
    false
}

} // verus!

verus! {

/// Merging converges: of two copies of an element, with different stamps and neither an
/// image, the board ends holding the same copy whichever arrives first.
pub proof fn lemma_merge_order_free(existing: Option<ElementView>, a: ElementView, b: ElementView)
    requires
        !crate::sync::same_stamps(a, b),
        a.kind != crate::element::DrawElementType::Image,
        b.kind != crate::element::DrawElementType::Image,
        existing is Some ==> existing.unwrap().kind != crate::element::DrawElementType::Image,
    ensures
        received(received(existing, a), b) == received(received(existing, b), a),
{
    crate::sync::lemma_stamp_wins_decides(a, b);
    if existing is Some {
        let e = existing.unwrap();
        crate::sync::lemma_stamp_wins_decides(a, e);
        crate::sync::lemma_stamp_wins_decides(b, e);
        if stamp_wins(a, e) && stamp_wins(b, a) {
            crate::sync::lemma_stamp_wins_transitive(b, a, e);
        }
        if stamp_wins(b, e) && stamp_wins(a, b) {
            crate::sync::lemma_stamp_wins_transitive(a, b, e);
        }
        if stamp_wins(e, a) && stamp_wins(a, b) {
            crate::sync::lemma_stamp_wins_transitive(e, a, b);
        }
        if stamp_wins(e, b) && stamp_wins(b, a) {
            crate::sync::lemma_stamp_wins_transitive(e, b, a);
        }
    }
}

/// Of the board's copy and a peer's, neither an image, the board keeps the one whose
/// stamp wins.
pub proof fn lemma_merge_keeps_winner(existing: ElementView, incoming: ElementView)
    requires
        existing.kind != crate::element::DrawElementType::Image,
        incoming.kind != crate::element::DrawElementType::Image,
    ensures
        received(Some(existing), incoming) == Some(
            if stamp_wins(incoming, existing) {
                incoming
            } else {
                existing
            },
        ),
{
}

/// The first element with `x`'s id in `put(s, x)` is where `x` went.
proof fn lemma_put_named(s: Seq<ElementView>, x: ElementView)
    ensures
        named_at(put(s, x), x.id) == Some(
            match named_at(s, x.id) {
                Some(j) => j,
                None => s.len() as int,
            },
        ),
{
    let t = put(s, x);
    let p = |j: int| s[j].id == x.id;
    let q = |j: int| t[j].id == x.id;
    crate::group::lemma_first_such(s.len() as int, p);
    match named_at(s, x.id) {
        Some(j) => {
            assert forall|i: int| 0 <= i < j implies !#[trigger] q(i) by {
                assert(!p(i));
            }
            crate::group::lemma_first_found(t.len() as int, q, j);
        },
        None => {
            assert forall|i: int| 0 <= i < s.len() implies !#[trigger] q(i) by {
                assert(!p(i));
            }
            crate::group::lemma_first_found(t.len() as int, q, s.len() as int);
        },
    }
}

/// Merging an element being changed nowhere here settles its board copy as `received`
/// says, where the first element with its id stands, or on top.
proof fn lemma_merged_settles(
    board: Seq<ElementView>,
    refused: Seq<ElementView>,
    pending: Set<Seq<char>>,
    e: ElementView,
)
    requires
        !pending.contains(e.id),
    ensures
        merged(board, refused, pending, e).1 == refused,
        merged(board, refused, pending, e).0 == match named_at(board, e.id) {
            Some(j) => board.update(j, received(Some(board[j]), e).unwrap()),
            None => board.push(e),
        },
{
    crate::group::lemma_first_such(board.len() as int, |j: int| board[j].id == e.id);
    match named_at(board, e.id) {
        Some(j) => {
            let r = merged(board, refused, pending, e).0;
            assert(named(board, e.id) == Some(board[j]));
            if remote_step(e, Some(board[j]), false, named(refused, e.id)) == RemoteStep::Ignore {
                assert(r =~= board.update(j, board[j]));
            }
        },
        None => {},
    }
}

/// Merging converges on the board: two copies a peer sends of one element being changed
/// nowhere here, with different stamps and none of them an image, leave the board the same
/// whichever is merged first.
#[verifier::rlimit(50)]
pub proof fn lemma_merge_remote_order_free(
    board: Seq<ElementView>,
    refused: Seq<ElementView>,
    pending: Set<Seq<char>>,
    a: ElementView,
    b: ElementView,
)
    requires
        a.id == b.id,
        !pending.contains(a.id),
        !crate::sync::same_stamps(a, b),
        a.kind != crate::element::DrawElementType::Image,
        b.kind != crate::element::DrawElementType::Image,
        named(board, a.id) is Some ==> named(board, a.id).unwrap().kind
            != crate::element::DrawElementType::Image,
    ensures
        merged(merged(board, refused, pending, a).0, refused, pending, b).0 == merged(
            merged(board, refused, pending, b).0,
            refused,
            pending,
            a,
        ).0,
{
    let id = a.id;
    crate::group::lemma_first_such(board.len() as int, |j: int| board[j].id == id);
    lemma_merged_settles(board, refused, pending, a);
    lemma_merged_settles(board, refused, pending, b);
    let ba = merged(board, refused, pending, a).0;
    let bb = merged(board, refused, pending, b).0;
    lemma_merged_settles(ba, refused, pending, b);
    lemma_merged_settles(bb, refused, pending, a);
    match named_at(board, id) {
        Some(j) => {
            assert(named(board, id) == Some(board[j]));
            let xa = received(Some(board[j]), a).unwrap();
            let xb = received(Some(board[j]), b).unwrap();
            lemma_put_named(board, xa);
            lemma_put_named(board, xb);
            assert(put(board, xa) == ba);
            assert(put(board, xb) == bb);
            lemma_merge_order_free(Some(board[j]), a, b);
            assert(ba.update(j, received(Some(ba[j]), b).unwrap()) =~= bb.update(
                j,
                received(Some(bb[j]), a).unwrap(),
            ));
        },
        None => {
            lemma_put_named(board, a);
            lemma_put_named(board, b);
            assert(put(board, a) == ba);
            assert(put(board, b) == bb);
            lemma_merge_order_free(None, a, b);
            let n = board.len() as int;
            assert(ba.update(n, received(Some(ba[n]), b).unwrap()) =~= bb.update(
                n,
                received(Some(bb[n]), a).unwrap(),
            ));
        },
    }
}

/// A picture is sent once: when a peer's newer copy of an image arrives without its
/// picture, the board takes the peer's copy and keeps the picture it already had, in the
/// place the image stood.
pub proof fn lemma_merge_keeps_picture(
    board: Seq<ElementView>,
    refused: Seq<ElementView>,
    pending: Set<Seq<char>>,
    incoming: ElementView,
    j: int,
)
    requires
        0 <= j < board.len(),
        board[j].id == incoming.id,
        forall|i: int| 0 <= i < j ==> board[i].id != incoming.id,
        !pending.contains(incoming.id),
        incoming.kind == crate::element::DrawElementType::Image,
        !incoming.is_deleted,
        !board[j].is_deleted,
        incoming.data_url is None,
        board[j].data_url is Some,
        stamp_wins(incoming, board[j]),
    ensures
        merged(board, refused, pending, incoming).0.len() == board.len(),
        merged(board, refused, pending, incoming).0[j] == (ElementView {
            data_url: board[j].data_url,
            ..incoming
        }),
        forall|i: int|
            0 <= i < board.len() && i != j ==> merged(board, refused, pending, incoming).0[i] == board[i],
{
    let p = |i: int| board[i].id == incoming.id;
    crate::group::lemma_first_found(board.len() as int, p, j);
    assert(named(board, incoming.id) == Some(board[j]));
    lemma_put_named(board, accepted(incoming, Some(board[j])));
}

} // verus!
