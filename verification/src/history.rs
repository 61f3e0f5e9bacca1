//! What a commit and an undo do to each element they touch, as stamps go.
//!
//! A commit stamps what changed, above any peer copy refused while it was being changed;
//! where the change came to nothing, a refused peer copy that wins is taken then. An undo
//! or a redo is a new edit: each element the step changed is put back as it was, or as it
//! became, with a stamp above both that and what is there now, and what a peer holds is
//! left alone.

use vstd::prelude::*;
use crate::element::{ov, same_text, DrawElement, ElementView};
use crate::sync::{needs_stamp, next_version, remote_wins, same_stamp, stamp_wins};
use crate::zorder::same_levels;

verus! {

/// Two copies of an element alike in everything but their stamps, as far as the rules
/// see them.
pub open spec fn same_content(a: ElementView, b: ElementView) -> bool {
    ElementView { version: b.version, version_nonce: b.version_nonce, updated: b.updated, ..a } == b
}

/// What committing a step does to one element it touched.
#[derive(Clone, Copy, Debug, PartialEq, Eq, Structural)]
pub enum CommitAction {
    /// It came to nothing: no change is recorded.
    Unchanged,
    /// It came to nothing, and the peer copy refused meanwhile wins: that copy is taken.
    Adopt,
    /// The change is recorded with the stamp it carries.
    Record,
    /// The change is recorded under a new stamp of this version.
    Stamp(u32),
}

/// Whether the step left the element as it found it: absent both times, or present both
/// times with the same stamp and the same content (`geometry_same` says whether what the
/// rules do not see is the same too).
pub open spec fn came_to_nothing(
    before: Option<ElementView>,
    now: Option<ElementView>,
    geometry_same: bool,
) -> bool {
    match (before, now) {
        (None, None) => true,
        (Some(b), Some(n)) => b.version == n.version && b.version_nonce == n.version_nonce
            && same_content(b, n) && geometry_same,
        _ => false,
    }
}

/// What a commit does with an element: `before` as the step found it, `now` as it left it,
/// `refused` the peer copy refused during the step.
pub open spec fn commit_action(
    before: Option<ElementView>,
    now: Option<ElementView>,
    refused: Option<ElementView>,
    geometry_same: bool,
) -> CommitAction {
    if came_to_nothing(before, now, geometry_same) {
        if refused is Some && now is Some && stamp_wins(refused.unwrap(), now.unwrap()) {
            CommitAction::Adopt
        } else {
            CommitAction::Unchanged
        }
    } else {
        match now {
            Some(n) => if needs_stamp(before, n, refused) {
                CommitAction::Stamp(next_version(n, refused) as u32)
            } else {
                CommitAction::Record
            },
            None => CommitAction::Record,
        }
    }
}

/// What an undo or a redo does with one element of the step it replays.
#[derive(Clone, Copy, Debug, PartialEq, Eq, Structural)]
pub enum ReplayAction {
    /// Left as it is.
    Keep,
    /// The element wanted goes on the board under a new stamp of this version.
    Restore(u32),
    /// The element the step made is deleted, under a new stamp of this version.
    Tombstone(u32),
}

/// What replaying a step does with an element: `want` as the step says it should be,
/// `now` as it is, `held` whether a peer holds it.
pub open spec fn replay_action(
    want: Option<ElementView>,
    now: Option<ElementView>,
    held: bool,
    geometry_same: bool,
) -> ReplayAction {
    if held {
        ReplayAction::Keep
    } else {
        match (want, now) {
            (Some(w), Some(n)) => if !(same_content(w, n) && geometry_same) {
                ReplayAction::Restore(
                    (if n.version >= w.version {
                        n.version + 1
                    } else {
                        w.version + 1
                    }) as u32,
                )
            } else {
                ReplayAction::Keep
            },
            (Some(w), None) => ReplayAction::Restore((w.version + 1) as u32),
            (None, Some(n)) => if !n.is_deleted {
                ReplayAction::Tombstone((n.version + 1) as u32)
            } else {
                ReplayAction::Keep
            },
            (None, None) => ReplayAction::Keep,
        }
    }
}

/// The view of an optional element.
pub open spec fn opt_view(e: Option<&DrawElement>) -> Option<ElementView> {
    match e {
        Some(x) => Some(x@),
        None => None,
    }
}

/// Whether two optional strings hold the same text.
fn same_opt_text(a: &Option<String>, b: &Option<String>) -> (r: bool)
    ensures
        r == (ov(*a) == ov(*b)),
{
    match (a, b) {
        (Some(x), Some(y)) => same_text(x, y),
        (None, None) => true,
        _ => false,
    }
}

/// Whether two optional flags are the same.
fn same_flag(a: Option<bool>, b: Option<bool>) -> (r: bool)
    ensures
        r == (a == b),
{
    match (a, b) {
        (Some(x), Some(y)) => x == y,
        (None, None) => true,
        _ => false,
    }
}

/// Whether two copies are alike in everything but their stamps.
pub fn same_content_of(a: &DrawElement, b: &DrawElement) -> (r: bool)
    ensures
        r == same_content(a@, b@),
{
    let aligned = match (a.text_align, b.text_align) {
        (Some(x), Some(y)) => x == y,
        (None, None) => true,
        _ => false,
    };
    let vertical = match (a.vertical_align, b.vertical_align) {
        (Some(x), Some(y)) => x == y,
        (None, None) => true,
        _ => false,
    };
    let r = same_text(&a.id, &b.id) && a.kind == b.kind && a.is_deleted == b.is_deleted
        && a.locked == b.locked && same_levels(&a.group_ids, &b.group_ids)
        && same_opt_text(&a.frame_id, &b.frame_id) && same_opt_text(&a.container_id, &b.container_id)
        && same_opt_text(&a.bound_text_id, &b.bound_text_id)
        && same_opt_text(&a.start_binding, &b.start_binding)
        && same_opt_text(&a.end_binding, &b.end_binding) && a.elbowed == b.elbowed
        && same_flag(a.polygon, b.polygon) && a.point_count == b.point_count
        && same_text(&a.background_color, &b.background_color) && aligned && vertical
        && same_flag(a.auto_resize, b.auto_resize) && same_opt_text(&a.data_url, &b.data_url)
        && same_opt_text(&a.start_arrowhead, &b.start_arrowhead)
        && same_opt_text(&a.end_arrowhead, &b.end_arrowhead);
    proof {
        let x = ElementView {
            version: b@.version,
            version_nonce: b@.version_nonce,
            updated: b@.updated,
            ..a@
        };
        if r {
            assert(x =~= b@);
        } else if x == b@ {
            assert(x.group_ids == b@.group_ids);
        }
    }
    r
}

/// What committing a step does with one element: `before` as the step found it, `now` as
/// it left it, `refused` the peer copy refused while it was being changed;
/// `geometry_same` says whether its geometry is what it was.
pub fn commit_action_for(
    before: Option<&DrawElement>,
    now: Option<&DrawElement>,
    refused: Option<&DrawElement>,
    geometry_same: bool,
) -> (r: CommitAction)
    requires
        now is Some && needs_stamp(opt_view(before), now.unwrap()@, opt_view(refused))
            ==> next_version(now.unwrap()@, opt_view(refused)) <= u32::MAX,
    ensures
        r == commit_action(opt_view(before), opt_view(now), opt_view(refused), geometry_same),
{
    let nothing = match (before, now) {
        (None, None) => true,
        (Some(b), Some(n)) => same_stamp(b, n) && same_content_of(b, n) && geometry_same,
        _ => false,
    };
    if nothing {
        return match (refused, now) {
            (Some(peer), Some(n)) => if remote_wins(peer, n) {
                CommitAction::Adopt
            } else {
                CommitAction::Unchanged
            },
            _ => CommitAction::Unchanged,
        };
    }
    match now {
        Some(n) => match crate::sync::stamp_version(before, n, refused) {
            Some(v) => CommitAction::Stamp(v),
            None => CommitAction::Record,
        },
        None => CommitAction::Record,
    }
}

/// What replaying a step does with one element: `want` as the step says it should be,
/// `now` as it is, `held` whether a peer holds it, `geometry_same` whether the two have the
/// same geometry.
pub fn replay_action_for(
    want: Option<&DrawElement>,
    now: Option<&DrawElement>,
    held: bool,
    geometry_same: bool,
) -> (r: ReplayAction)
    requires
        want is Some ==> want.unwrap().version < u32::MAX,
        now is Some ==> now.unwrap().version < u32::MAX,
    ensures
        r == replay_action(opt_view(want), opt_view(now), held, geometry_same),
{
    if held {
        return ReplayAction::Keep;
    }
    match (want, now) {
        (Some(w), Some(n)) => if !(same_content_of(w, n) && geometry_same) {
            let top = if n.version >= w.version {
                n.version
            } else {
                w.version
            };
            ReplayAction::Restore(top + 1)
        } else {
            ReplayAction::Keep
        },
        (Some(w), None) => ReplayAction::Restore(w.version + 1),
        (None, Some(n)) => if !n.is_deleted {
            ReplayAction::Tombstone(n.version + 1)
        } else {
            ReplayAction::Keep
        },
        (None, None) => ReplayAction::Keep,
    }
}

/// Undo is a new edit: what a replay puts on the board carries a stamp that wins over what
/// is there now and over the copy the step recorded.
pub proof fn lemma_replay_stamp_wins(
    want: Option<ElementView>,
    now: Option<ElementView>,
    held: bool,
    geometry_same: bool,
    stamped: ElementView,
)
    requires
        want is Some ==> want.unwrap().version < u32::MAX,
        now is Some ==> now.unwrap().version < u32::MAX,
        replay_action(want, now, held, geometry_same) == ReplayAction::Restore(stamped.version)
            || replay_action(want, now, held, geometry_same) == ReplayAction::Tombstone(
            stamped.version,
        ),
    ensures
        now is Some ==> stamp_wins(stamped, now.unwrap()),
        want is Some ==> stamp_wins(stamped, want.unwrap()),
{
}

/// What a peer holds is theirs: a replay leaves it as it is.
pub proof fn lemma_replay_spares_held(
    want: Option<ElementView>,
    now: Option<ElementView>,
    geometry_same: bool,
)
    ensures
        replay_action(want, now, true, geometry_same) == ReplayAction::Keep,
{
}

/// The later edit wins: an element changed here while a peer's copy of it was refused is
/// recorded, on commit, under a stamp that wins over that copy, whether the commit stamps
/// it anew or it already carries one.
pub proof fn lemma_change_beats_refused(
    before: Option<ElementView>,
    now: ElementView,
    refused: ElementView,
    geometry_same: bool,
    recorded: ElementView,
)
    requires
        !came_to_nothing(before, Some(now), geometry_same),
        next_version(now, Some(refused)) <= u32::MAX,
        match commit_action(before, Some(now), Some(refused), geometry_same) {
            CommitAction::Stamp(v) => recorded.version == v,
            CommitAction::Record => recorded == now,
            _ => false,
        },
    ensures
        stamp_wins(recorded, refused),
{
}

/// Undo puts back what moved: an element no peer holds, whose geometry differs from the
/// copy the step recorded, is restored under a stamp above both, whatever the rest of the
/// two copies hold.
pub proof fn lemma_replay_restores_moved(want: ElementView, now: ElementView)
    requires
        want.version < u32::MAX,
        now.version < u32::MAX,
    ensures
        replay_action(Some(want), Some(now), false, false) == ReplayAction::Restore(
            (if now.version >= want.version {
                now.version + 1
            } else {
                want.version + 1
            }) as u32,
        ),
        ({
            let v = replay_action(Some(want), Some(now), false, false)->Restore_0;
            v > want.version && v > now.version
        }),
{
}

/// Undo changes nothing only where nothing differs: with no peer holding it and the
/// geometry the same, an element is kept exactly when its rule-visible content matches.
pub proof fn lemma_replay_keeps_only_the_same(want: ElementView, now: ElementView)
    requires
        want.version < u32::MAX,
        now.version < u32::MAX,
    ensures
        (replay_action(Some(want), Some(now), false, true) == ReplayAction::Keep) == (ElementView {
            version: now.version,
            version_nonce: now.version_nonce,
            updated: now.updated,
            ..want
        } == now),
{
}

} // verus!
