//! Reconciling two copies of one element: which stamp wins, and the picture an image
//! copy may be sent without.
//!
//! An element's stamp is its version, then its version nonce, then the time it was last
//! stamped. Comparing stamps in that order is a strict total order, so every peer that
//! sees the same two copies keeps the same one, whatever order they arrived in.

use vstd::prelude::*;
use crate::element::{copy_opt, DrawElement, DrawElementType, ElementView};

verus! {

/// Whether a copy stamped `a` wins over one stamped `b`: higher version, then higher
/// nonce, then later stamp time.
pub open spec fn stamp_wins(a: ElementView, b: ElementView) -> bool {
    if a.version != b.version {
        a.version > b.version
    } else if a.version_nonce != b.version_nonce {
        a.version_nonce > b.version_nonce
    } else {
        a.updated > b.updated
    }
}

/// Two copies carry the same stamp.
pub open spec fn same_stamps(a: ElementView, b: ElementView) -> bool {
    a.version == b.version && a.version_nonce == b.version_nonce && a.updated == b.updated
}

/// `copy` is a live image that `existing` shows, missing only its picture.
pub open spec fn picture_missing(copy: ElementView, existing: ElementView) -> bool {
    &&& copy.kind == DrawElementType::Image
    &&& !copy.is_deleted
    &&& !existing.is_deleted
    &&& copy.data_url is None
    &&& existing.data_url is Some
}

/// Last-writer-wins between two copies of the same element.
pub fn remote_wins(incoming: &DrawElement, existing: &DrawElement) -> (r: bool)
    ensures
        r == stamp_wins(incoming@, existing@),
{
    if incoming.version != existing.version {
        return incoming.version > existing.version;
    }
    if incoming.version_nonce != existing.version_nonce {
        return incoming.version_nonce > existing.version_nonce;
    }
    incoming.updated > existing.updated
}

/// Whether two copies carry the same version and nonce.
pub fn same_stamp(a: &DrawElement, b: &DrawElement) -> (r: bool)
    ensures
        r == (a@.version == b@.version && a@.version_nonce == b@.version_nonce),
{
    a.version == b.version && a.version_nonce == b.version_nonce
}

/// Whether `copy` is a live image that `existing` shows, missing only its picture.
pub fn lacks_picture(copy: &DrawElement, existing: &DrawElement) -> (r: bool)
    ensures
        r == picture_missing(copy@, existing@),
{
    copy.kind == DrawElementType::Image && !copy.is_deleted && !existing.is_deleted
        && copy.data_url.is_none() && existing.data_url.is_some()
}

/// Gives `copy` the picture `existing` already has, when it lacks only that.
pub fn inherit_picture(copy: &mut DrawElement, existing: &DrawElement)
    ensures
        picture_missing(old(copy)@, existing@) ==> final(copy)@ == (ElementView {
            data_url: existing@.data_url,
            ..old(copy)@
        }),
        !picture_missing(old(copy)@, existing@) ==> final(copy)@ == old(copy)@,
{
    if lacks_picture(copy, existing) {
        copy.data_url = copy_opt(&existing.data_url);
    }
}

/// Whether the only thing to take from `incoming` is its picture: the same edit as the
/// scene's, which arrived without one.
pub fn brings_picture(incoming: &DrawElement, existing: &DrawElement) -> (r: bool)
    ensures
        r == (picture_missing(existing@, incoming@) && incoming@.version == existing@.version
            && incoming@.version_nonce == existing@.version_nonce),
{
    lacks_picture(existing, incoming) && incoming.version == existing.version
        && incoming.version_nonce == existing.version_nonce
}

/// Of two copies with different stamps exactly one wins, and of two with the same stamp
/// neither does.
pub proof fn lemma_stamp_wins_decides(a: ElementView, b: ElementView)
    ensures
        !(stamp_wins(a, b) && stamp_wins(b, a)),
        !same_stamps(a, b) ==> (stamp_wins(a, b) || stamp_wins(b, a)),
        same_stamps(a, b) ==> !stamp_wins(a, b),
{
}

/// Winning is transitive: the copy that beats one that beats a third beats the third.
pub proof fn lemma_stamp_wins_transitive(a: ElementView, b: ElementView, c: ElementView)
    requires
        stamp_wins(a, b),
        stamp_wins(b, c),
    ensures
        stamp_wins(a, c),
{
}

/// A copy that inherited its picture no longer lacks one.
pub proof fn lemma_inherited_picture_stays(copy: ElementView, existing: ElementView)
    requires
        picture_missing(copy, existing),
    ensures
        !picture_missing(ElementView { data_url: existing.data_url, ..copy }, existing),
{
}

} // verus!

verus! {

/// The version a refused peer copy sets as the floor for the next stamp: its own, or
/// none.
pub open spec fn stamp_floor(refused: Option<ElementView>) -> int {
    match refused {
        Some(p) => p.version as int,
        None => 0,
    }
}

/// Whether a changed element needs a new stamp when a step is committed: it still carries
/// the stamp it had before the step, or a refused peer copy is at its version or above.
pub open spec fn needs_stamp(before: Option<ElementView>, now: ElementView, refused: Option<ElementView>) -> bool {
    (before is Some && before.unwrap().version == now.version && before.unwrap().version_nonce
        == now.version_nonce) || now.version <= stamp_floor(refused)
}

/// The version a new stamp takes: one above both the element's and the floor.
pub open spec fn next_version(now: ElementView, refused: Option<ElementView>) -> int {
    if now.version as int >= stamp_floor(refused) {
        now.version + 1
    } else {
        stamp_floor(refused) + 1
    }
}

/// The version a changed element is stamped with when a step is committed, or `None` when
/// it keeps its stamp. `before` is the element as the step found it, `refused` a peer's
/// copy of it refused during the step.
pub fn stamp_version(before: Option<&DrawElement>, now: &DrawElement, refused: Option<&DrawElement>) -> (r:
    Option<u32>)
    requires
        needs_stamp(
            match before {
                Some(b) => Some(b@),
                None => None,
            },
            now@,
            match refused {
                Some(p) => Some(p@),
                None => None,
            },
        ) ==> next_version(
            now@,
            match refused {
                Some(p) => Some(p@),
                None => None,
            },
        ) <= u32::MAX,
    ensures
        ({
            let rv = match refused {
                Some(p) => Some(p@),
                None => None,
            };
            let bv = match before {
                Some(b) => Some(b@),
                None => None,
            };
            r == if needs_stamp(bv, now@, rv) {
                Some(next_version(now@, rv) as u32)
            } else {
                None
            }
        }),
{
    let floor: u32 = match refused {
        Some(p) => p.version,
        None => 0,
    };
    let unstamped = match before {
        Some(b) => same_stamp(b, now),
        None => false,
    };
    if unstamped || now.version <= floor {
        let top = if now.version >= floor {
            now.version
        } else {
            floor
        };
        Some(top + 1)
    } else {
        None
    }
}

/// The later edit wins: an element stamped on commit wins over the peer copy refused while
/// it was being changed, and over the copy it replaced, whatever nonce and time the new
/// stamp carries.
pub proof fn lemma_restamp_wins(
    before: Option<ElementView>,
    now: ElementView,
    refused: Option<ElementView>,
    stamped: ElementView,
)
    requires
        needs_stamp(before, now, refused),
        stamped.version == next_version(now, refused),
    ensures
        refused is Some ==> stamp_wins(stamped, refused.unwrap()),
        before is Some && before.unwrap().version <= now.version ==> stamp_wins(stamped, before.unwrap()),
        stamp_wins(stamped, now),
{
}

} // verus!
