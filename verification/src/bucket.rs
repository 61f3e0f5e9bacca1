//! The paint bucket's decisions: the fill it paints with, and where a region belongs.

use vstd::prelude::*;
use crate::element::ov;
use crate::style::FillStyle;

verus! {

/// A bucket paints solid: hatching would leave the region looking half filled.
pub open spec fn painted(style: FillStyle) -> FillStyle {
    match style {
        FillStyle::Hachure | FillStyle::CrossHatch => FillStyle::Solid,
        other => other,
    }
}

/// The one value all of `values` agree on: the first is some value, and every other is
/// that value. `None` for no values at all.
pub open spec fn agreed(values: Seq<Option<Seq<char>>>) -> Option<Seq<char>> {
    if values.len() > 0 && values[0] is Some && forall|i: int|
        0 <= i < values.len() ==> #[trigger] values[i] == values[0] {
        values[0]
    } else {
        None
    }
}

/// The texts of a list of optional strings.
pub open spec fn ovs(values: Seq<Option<String>>) -> Seq<Option<Seq<char>>> {
    Seq::new(values.len(), |i: int| ov(values[i]))
}

/// The fill style a bucket paints with, given the current one.
pub fn paint_fill_style(style: FillStyle) -> (r: FillStyle)
    ensures
        r == painted(style),
{
    match style {
        FillStyle::Hachure | FillStyle::CrossHatch => FillStyle::Solid,
        other => other,
    }
}

/// The one value every item agrees on, or `None`: unanimity, not a majority.
pub fn shared_among(values: &[Option<String>]) -> (r: Option<String>)
    ensures
        ov(r) == agreed(ovs(values@)),
{
    let ghost v = ovs(values@);
    if values.len() == 0 {
        return None;
    }
    let first = match &values[0] {
        Some(f) => f,
        None => {
            return None;
        },
    };
    assert(v[0] == Some(first@));
    let mut i: usize = 1;
    while i < values.len()
        invariant
            1 <= i <= values.len(),
            v == ovs(values@),
            v[0] == Some(first@),
            forall|j: int| 0 <= j < i ==> #[trigger] v[j] == v[0],
        decreases values.len() - i,
    {
        let same = match &values[i] {
            Some(x) => *x == *first,
            None => false,
        };
        assert(v[i as int] == ov(values@[i as int]));
        if !same {
            assert(v[i as int] != v[0]);
            return None;
        }
        i = i + 1;
    }
    Some(first.clone())
}

/// Painting is settled: the fill a bucket paints with paints the same once more.
pub proof fn lemma_painted_settled(style: FillStyle)
    ensures
        painted(painted(style)) == painted(style),
        painted(style) != FillStyle::Hachure && painted(style) != FillStyle::CrossHatch,
{
}

} // verus!
