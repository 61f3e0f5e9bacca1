//! The other people in a room: what each holds, and what that takes from the selection
//! here.

use vstd::prelude::*;
use crate::element::{contains_id, same_text, sv, DrawElement, ElementView};
use crate::delete::named;
use crate::element::scene;
use crate::group::{
    first_such, last_such, lemma_filter_map_step, lemma_filter_step, lemma_first_found, lemma_first_such,
    lemma_last_found, lemma_last_such,
};
use crate::panel::position_named;

verus! {

/// One other person in the room, as the host last heard of them.
pub struct Peer {
    pub id: String,
    pub name: String,
    /// A CSS colour: their cursor's, their outline's.
    pub color: String,
    /// What they hold: nobody else may touch these.
    pub holds: Vec<String>,
    /// Their gesture in progress: these elements as they are right now, uncommitted.
    pub preview: Vec<DrawElement>,
}

/// One peer's hold, as the painter draws it.
pub struct PeerMark<'a> {
    pub name: &'a str,
    pub color: &'a str,
    /// What they hold, as it is shown: their preview of it, when they have one.
    pub elements: Vec<&'a DrawElement>,
}

/// A painter that draws nothing, for a board without a screen.
pub struct NoopPainter;

/// Whether `p` holds `id`: it says so, or its gesture in progress shows that element.
pub open spec fn peer_holds(p: Peer, id: Seq<char>) -> bool {
    sv(p.holds@).contains(id) || exists|j: int| 0 <= j < p.preview@.len() && (#[trigger] p.preview@[j])@.id == id
}

/// The peer holding `id`: the first in the room that does.
pub open spec fn holder(peers: Seq<Peer>, id: Seq<char>) -> Option<int> {
    first_such(peers.len() as int, |k: int| peer_holds(peers[k], id))
}

/// Whether nobody else holds an id.
pub open spec fn free_of(peers: Seq<Peer>) -> spec_fn(Seq<char>) -> bool {
    |id: Seq<char>| holder(peers, id) is None
}

/// What of a selection stays selected: what nobody else holds, in selection order.
pub open spec fn unheld_ids(selected: Seq<Seq<char>>, peers: Seq<Peer>) -> Seq<Seq<char>> {
    selected.filter(free_of(peers))
}

/// Whether an element may not be touched here: locked, or held by someone else.
pub open spec fn off_limits(e: ElementView, peers: Seq<Peer>) -> bool {
    e.locked || holder(peers, e.id) is Some
}

/// Whether `p` holds `id`.
fn holds(p: &Peer, id: &String) -> (r: bool)
    ensures
        r == peer_holds(*p, id@),
{
    if contains_id(&p.holds, id) {
        return true;
    }
    let mut j: usize = 0;
    while j < p.preview.len()
        invariant
            j <= p.preview.len(),
            forall|m: int| 0 <= m < j ==> (#[trigger] p.preview@[m])@.id != id@,
        decreases p.preview.len() - j,
    {
        if same_text(&p.preview[j].id, id) {
            return true;
        }
        j = j + 1;
    }
    false
}

/// The peer holding `id`, if anyone does.
pub fn holder_of(peers: &[Peer], id: &String) -> (r: Option<usize>)
    ensures
        match r {
            Some(k) => k < peers.len() && holder(peers@, id@) == Some(k as int),
            None => holder(peers@, id@) is None,
        },
{
    let ghost p = |k: int| peer_holds(peers@[k], id@);
    proof {
        lemma_first_such(peers.len() as int, p);
    }
    let mut k: usize = 0;
    while k < peers.len()
        invariant
            k <= peers.len(),
            p == (|k: int| peer_holds(peers@[k], id@)),
            forall|m: int| 0 <= m < k ==> !#[trigger] p(m),
        decreases peers.len() - k,
    {
        if holds(&peers[k], id) {
            proof {
                lemma_first_found(peers.len() as int, p, k as int);
            }
            return Some(k);
        }
        k = k + 1;
    }
    None
}

/// Whether `element` may not be touched here: locked, or held by someone else.
pub fn untouchable(element: &DrawElement, peers: &[Peer]) -> (r: bool)
    ensures
        r == off_limits(element@, peers@),
{
    element.locked || holder_of(peers, &element.id).is_some()
}

/// What of the selection stays selected once `peers` hold what they hold: what nobody
/// else holds, in the order it was selected.
pub fn unheld(selected: &Vec<String>, peers: &[Peer]) -> (r: Vec<String>)
    ensures
        sv(r@) == unheld_ids(sv(selected@), peers@),
{
    let ghost s = sv(selected@);
    let ghost free = free_of(peers@);
    let mut out: Vec<String> = Vec::new();
    let mut i: usize = 0;
    while i < selected.len()
        invariant
            i <= selected.len(),
            s == sv(selected@),
            free == free_of(peers@),
            sv(out@) == s.take(i as int).filter(free),
        decreases selected.len() - i,
    {
        proof {
            lemma_filter_step(s, free, i as int);
        }
        assert(s[i as int] == selected@[i as int]@);
        if holder_of(peers, &selected[i]).is_none() {
            let ghost before = out@;
            out.push(selected[i].clone());
            assert(sv(out@) =~= sv(before).push(s[i as int]));
        }
        i = i + 1;
    }
    assert(s.take(selected.len() as int) =~= s);
    out
}

/// What someone else holds is no longer selected here: nothing left in the selection is
/// held, and nothing unheld is dropped.
pub proof fn lemma_unheld_is_free(selected: Seq<Seq<char>>, peers: Seq<Peer>)
    ensures
        forall|i: int|
            0 <= i < unheld_ids(selected, peers).len() ==> holder(peers, #[trigger] unheld_ids(selected, peers)[i])
                is None,
        forall|id: Seq<char>|
            selected.contains(id) && holder(peers, id) is None ==> #[trigger] unheld_ids(selected, peers).contains(
                id,
            ),
{
    broadcast use vstd::seq_lib::group_filter_ensures;

    assert forall|i: int| 0 <= i < unheld_ids(selected, peers).len() implies holder(
        peers,
        #[trigger] unheld_ids(selected, peers)[i],
    ) is None by {
        assert(free_of(peers)(selected.filter(free_of(peers))[i]));
    }
    assert forall|id: Seq<char>| selected.contains(id) && holder(peers, id) is None implies #[trigger] unheld_ids(
        selected,
        peers,
    ).contains(id) by {
        assert(free_of(peers)(id));
    }
}

// ------------------------------------------------------------------ what the painter marks

/// A preview not yet overtaken by a commit: the board has no copy of the element, or one
/// at the preview's version or below.
pub open spec fn current(s: Seq<ElementView>, p: ElementView) -> bool {
    match named(s, p.id) {
        Some(c) => c.version <= p.version,
        None => true,
    }
}

/// Whether the `j`th preview of peer `p` is a current preview of `id`.
pub open spec fn previews_at(s: Seq<ElementView>, p: Peer, id: Seq<char>) -> spec_fn(int) -> bool {
    |j: int| p.preview@[j]@.id == id && current(s, p.preview@[j]@)
}

/// The last current preview of `id` among the first `n` peers.
pub open spec fn preview_upto(s: Seq<ElementView>, peers: Seq<Peer>, id: Seq<char>, n: int) -> Option<
    ElementView,
>
    decreases n,
{
    if n <= 0 {
        None
    } else {
        match last_such(peers[n - 1].preview@.len() as int, previews_at(s, peers[n - 1], id)) {
            Some(j) => Some(peers[n - 1].preview@[j]@),
            None => preview_upto(s, peers, id, n - 1),
        }
    }
}

/// The element `id` as it is shown: the last current preview of it, else the board's.
pub open spec fn shown(s: Seq<ElementView>, peers: Seq<Peer>, id: Seq<char>) -> Option<ElementView> {
    match preview_upto(s, peers, id, peers.len() as int) {
        Some(e) => Some(e),
        None => named(s, id),
    }
}

/// The ids a peer's mark covers: what it holds, then what it previews.
pub open spec fn mark_ids(p: Peer) -> Seq<Seq<char>> {
    sv(p.holds@) + Seq::new(p.preview@.len(), |j: int| p.preview@[j]@.id)
}

/// The element `id` stands for in a mark: as it is shown, when that is live.
pub open spec fn shown_live(s: Seq<ElementView>, peers: Seq<Peer>) -> spec_fn(Seq<char>) -> Option<
    ElementView,
> {
    |id: Seq<char>|
        match shown(s, peers, id) {
            Some(e) => if !e.is_deleted {
                Some(e)
            } else {
                None
            },
            None => None,
        }
}

/// What the painter marks for peer `p`.
pub open spec fn marked(s: Seq<ElementView>, peers: Seq<Peer>, p: Peer) -> Seq<ElementView> {
    mark_ids(p).filter_map(shown_live(s, peers))
}

/// The elements of a list of references, as values.
pub open spec fn refs_view<'a>(v: Seq<&'a DrawElement>) -> Seq<ElementView> {
    Seq::new(v.len(), |k: int| v[k]@)
}

/// A mark as values: whose name and colour, and what it covers.
pub open spec fn mark_view<'a>(m: PeerMark<'a>) -> (Seq<char>, Seq<char>, Seq<ElementView>) {
    (m.name@, m.color@, refs_view(m.elements@))
}

/// The marks of the room: one for each peer whose mark covers something.
pub open spec fn marks_of(s: Seq<ElementView>, peers: Seq<Peer>) -> Seq<(Seq<char>, Seq<char>, Seq<ElementView>)> {
    peers.filter_map(
        |p: Peer|
            if marked(s, peers, p).len() > 0 {
                Some((p.name@, p.color@, marked(s, peers, p)))
            } else {
                None
            },
    )
}

/// Whether `preview` is not yet overtaken by a commit on `elements`.
fn is_current(elements: &[DrawElement], preview: &DrawElement) -> (r: bool)
    ensures
        r == current(scene(elements@), preview@),
{
    match position_named(elements, &preview.id) {
        Some(j) => {
            assert(scene(elements@)[j as int] == elements@[j as int]@);
            elements[j].version <= preview.version
        },
        None => true,
    }
}

/// The element `id` as it is shown.
fn shown_for<'a>(elements: &'a [DrawElement], peers: &'a [Peer], id: &String) -> (r: Option<&'a DrawElement>)
    ensures
        match r {
            Some(e) => shown(scene(elements@), peers@, id@) == Some(e@),
            None => shown(scene(elements@), peers@, id@) is None,
        },
{
    let ghost s = scene(elements@);
    let ghost n = peers@.len() as int;
    let mut k: usize = peers.len();
    while k > 0
        invariant
            k <= peers.len(),
            s == scene(elements@),
            n == peers@.len(),
            preview_upto(s, peers@, id@, n) == preview_upto(s, peers@, id@, k as int),
        decreases k,
    {
        let peer = &peers[k - 1];
        let ghost p = previews_at(s, peers@[k - 1], id@);
        proof {
            lemma_last_such(peer.preview@.len() as int, p);
        }
        let mut j: usize = peer.preview.len();
        while j > 0
            invariant
                j <= peer.preview.len(),
                peer == &peers[k - 1],
                0 < k <= peers.len(),
                s == scene(elements@),
                n == peers@.len(),
                preview_upto(s, peers@, id@, n) == preview_upto(s, peers@, id@, k as int),
                p == previews_at(s, peers@[k - 1], id@),
                forall|m: int| j <= m < peer.preview@.len() ==> !#[trigger] p(m),
            decreases j,
        {
            j = j - 1;
            let candidate = &peer.preview[j];
            if same_text(&candidate.id, id) && is_current(elements, candidate) {
                proof {
                    lemma_last_found(peer.preview@.len() as int, p, j as int);
                    assert(preview_upto(s, peers@, id@, k as int) == Some(candidate@));
                }
                return Some(candidate);
            }
        }
        proof {
            if last_such(peer.preview@.len() as int, p) is Some {
                assert(p(last_such(peer.preview@.len() as int, p).unwrap()));
            }
            assert(preview_upto(s, peers@, id@, k as int) == preview_upto(s, peers@, id@, k - 1));
        }
        k = k - 1;
    }
    match position_named(elements, id) {
        Some(j) => {
            assert(s[j as int] == elements@[j as int]@);
            Some(&elements[j])
        },
        None => None,
    }
}

/// What the painter marks for each peer: what they hold and what they preview, as it is
/// shown and live, for each peer whose mark covers something.
pub fn peer_marks<'a>(elements: &'a [DrawElement], peers: &'a [Peer]) -> (r: Vec<PeerMark<'a>>)
    ensures
        Seq::new(r@.len(), |k: int| mark_view(r@[k])) == marks_of(scene(elements@), peers@),
{
    let ghost s = scene(elements@);
    let ghost keep = |p: Peer|
        if marked(s, peers@, p).len() > 0 {
            Some((p.name@, p.color@, marked(s, peers@, p)))
        } else {
            None
        };
    let mut out: Vec<PeerMark<'a>> = Vec::new();
    let mut k: usize = 0;
    while k < peers.len()
        invariant
            k <= peers.len(),
            s == scene(elements@),
            keep == (|p: Peer|
                if marked(s, peers@, p).len() > 0 {
                    Some((p.name@, p.color@, marked(s, peers@, p)))
                } else {
                    None
                }),
            Seq::new(out@.len(), |m: int| mark_view(out@[m])) == peers@.take(k as int).filter_map(keep),
        decreases peers.len() - k,
    {
        proof {
            lemma_filter_map_step(peers@, keep, k as int);
        }
        let peer = &peers[k];
        let covered = marked_for(elements, peers, peer);
        let ghost before = Seq::new(out@.len(), |m: int| mark_view(out@[m]));
        if covered.len() > 0 {
            out.push(PeerMark { name: peer.name.as_str(), color: peer.color.as_str(), elements: covered });
            assert(Seq::new(out@.len(), |m: int| mark_view(out@[m])) =~= before.push(
                keep(peers@[k as int]).unwrap(),
            ));
        }
        k = k + 1;
    }
    assert(peers@.take(peers.len() as int) =~= peers@);
    out
}

/// What the painter marks for `peer`, one of `peers`.
#[verifier::rlimit(40)]
fn marked_for<'a>(elements: &'a [DrawElement], peers: &'a [Peer], peer: &'a Peer) -> (r: Vec<&'a DrawElement>)
    ensures
        refs_view(r@) == marked(scene(elements@), peers@, *peer),
{
    let ghost s = scene(elements@);
    let ghost ids = mark_ids(*peer);
    let ghost f = shown_live(s, peers@);
    let ghost h = peer.holds@.len() as int;
    let mut out: Vec<&'a DrawElement> = Vec::new();
    let mut i: usize = 0;
    while i < peer.holds.len()
        invariant
            i <= peer.holds.len(),
            s == scene(elements@),
            ids == mark_ids(*peer),
            f == shown_live(s, peers@),
            refs_view(out@) == ids.take(i as int).filter_map(f),
        decreases peer.holds.len() - i,
    {
        proof {
            lemma_filter_map_step(ids, f, i as int);
        }
        assert(ids[i as int] == peer.holds@[i as int]@);
        let ghost before = refs_view(out@);
        match shown_for(elements, peers, &peer.holds[i]) {
            Some(e) => if !e.is_deleted {
                out.push(e);
                assert(refs_view(out@) =~= before.push(e@));
            },
            None => {},
        }
        i = i + 1;
    }
    let mut j: usize = 0;
    while j < peer.preview.len()
        invariant
            j <= peer.preview.len(),
            h == peer.holds@.len(),
            s == scene(elements@),
            ids == mark_ids(*peer),
            ids.len() == h + peer.preview@.len(),
            f == shown_live(s, peers@),
            refs_view(out@) == ids.take(h + j).filter_map(f),
        decreases peer.preview.len() - j,
    {
        proof {
            lemma_filter_map_step(ids, f, h + j);
        }
        assert(ids[h + j] == peer.preview@[j as int]@.id);
        let ghost before = refs_view(out@);
        match shown_for(elements, peers, &peer.preview[j].id) {
            Some(e) => if !e.is_deleted {
                out.push(e);
                assert(refs_view(out@) =~= before.push(e@));
            },
            None => {},
        }
        j = j + 1;
    }
    assert(ids.take(ids.len() as int) =~= ids);
    out
}

} // verus!
