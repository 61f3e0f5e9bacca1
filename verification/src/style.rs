//! The properties panel's vocabulary: which kinds carry which style, the value a selection
//! shares, and merging one style patch over another.
//!
//! A style patch holds the fields a pick may set, each `None` when the pick leaves it
//! alone. Numbers in a patch are carried as the bit patterns of their values: a merge only
//! chooses between them and never reads one.

use vstd::prelude::*;
use crate::element::{is_text, DrawElementType};
use vstd::std_specs::cmp::PartialEqSpec;

verus! {

/// The value a selection shares so far: none seen, one seen by all, or a disagreement.
pub enum Common<T> {
    Empty,
    One(T),
    Mixed,
}

/// The Edges row of the panel: roundness read as a two-way choice.
#[derive(Clone, Copy, Debug, PartialEq, Eq, Structural)]
pub enum Edges {
    Sharp,
    Round,
}

/// The Arrow type row: an arrow is curved when it has a roundness at all.
#[derive(Clone, Copy, Debug, PartialEq, Eq, Structural)]
pub enum ArrowType {
    Sharp,
    Round,
}

/// Whose colours a colour pick sets: sticky notes keep colours of their own.
#[derive(Clone, Copy, Debug, PartialEq, Eq, Structural)]
pub enum ColorDomain {
    Regular,
    Sticky,
    Mixed,
}

/// How a shape's inside is painted.
#[derive(Clone, Copy, Debug, PartialEq, Eq, Structural)]
pub enum FillStyle {
    Hachure,
    CrossHatch,
    Solid,
    Zigzag,
}

/// How a stroke is drawn.
#[derive(Clone, Copy, Debug, PartialEq, Eq, Structural)]
pub enum StrokeStyle {
    Solid,
    Dashed,
    Dotted,
}

/// Something the person should be told, as a code rather than a sentence.
#[derive(Clone, Copy, Debug, PartialEq, Eq, Structural)]
pub enum Notice {
    /// There is a shape under the bucket, but its outline does not close around the
    /// click, so there is no region to paint.
    FillRegionNotClosed,
    /// Too much geometry near the click to resolve a region in the time a click may take.
    FillRegionTooComplex,
}

/// The style fields a pick may set; `None` leaves a field alone. The numbers (stroke
/// width, roughness, opacity, roundness) are the bit patterns of their values.
pub struct DrawElementStylePatch {
    pub stroke_color: Option<String>,
    pub background_color: Option<String>,
    pub fill_style: Option<FillStyle>,
    pub stroke_width: Option<u64>,
    pub stroke_style: Option<StrokeStyle>,
    pub roughness: Option<u64>,
    pub opacity: Option<u64>,
    pub roundness: Option<u64>,
}

/// A style patch as values.
#[verifier::ext_equal]
pub struct PatchView {
    pub stroke_color: Option<Seq<char>>,
    pub background_color: Option<Seq<char>>,
    pub fill_style: Option<FillStyle>,
    pub stroke_width: Option<u64>,
    pub stroke_style: Option<StrokeStyle>,
    pub roughness: Option<u64>,
    pub opacity: Option<u64>,
    pub roundness: Option<u64>,
}

impl View for DrawElementStylePatch {
    type V = PatchView;

    open spec fn view(&self) -> PatchView {
        PatchView {
            stroke_color: crate::element::ov(self.stroke_color),
            background_color: crate::element::ov(self.background_color),
            fill_style: self.fill_style,
            stroke_width: self.stroke_width,
            stroke_style: self.stroke_style,
            roughness: self.roughness,
            opacity: self.opacity,
            roundness: self.roundness,
        }
    }
}

// ------------------------------------------------------------------ the model

/// `a`, or `b` where `a` is `None`.
pub open spec fn or_else<A>(a: Option<A>, b: Option<A>) -> Option<A> {
    match a {
        Some(x) => Some(x),
        None => b,
    }
}

/// `patch` laid over `base`: every field the patch sets, and the base's elsewhere.
pub open spec fn merged(base: PatchView, patch: PatchView) -> PatchView {
    PatchView {
        stroke_color: or_else(patch.stroke_color, base.stroke_color),
        background_color: or_else(patch.background_color, base.background_color),
        fill_style: or_else(patch.fill_style, base.fill_style),
        stroke_width: or_else(patch.stroke_width, base.stroke_width),
        stroke_style: or_else(patch.stroke_style, base.stroke_style),
        roughness: or_else(patch.roughness, base.roughness),
        opacity: or_else(patch.opacity, base.opacity),
        roundness: or_else(patch.roundness, base.roundness),
    }
}

/// The patch that sets nothing.
pub open spec fn empty_patch() -> PatchView {
    PatchView {
        stroke_color: None,
        background_color: None,
        fill_style: None,
        stroke_width: None,
        stroke_style: None,
        roughness: None,
        opacity: None,
        roundness: None,
    }
}

/// What a shared value becomes once `value` is seen too.
pub open spec fn added<T: PartialEq>(c: Common<T>, value: T) -> Common<T> {
    match c {
        Common::Empty => Common::One(value),
        Common::One(held) => if held.eq_spec(&value) {
            Common::One(held)
        } else {
            Common::Mixed
        },
        Common::Mixed => Common::Mixed,
    }
}

/// The value shared, if one is.
pub open spec fn shared<T>(c: Common<T>) -> Option<T> {
    match c {
        Common::One(v) => Some(v),
        _ => None,
    }
}

/// A kind with a stroke colour.
pub open spec fn stroked(kind: DrawElementType) -> bool {
    !(kind == DrawElementType::Frame || kind == DrawElementType::Image)
}

/// A kind with a background.
pub open spec fn backed(kind: DrawElementType) -> bool {
    ||| kind == DrawElementType::Rectangle
    ||| kind == DrawElementType::StickyNote
    ||| kind == DrawElementType::Embed
    ||| kind == DrawElementType::Ellipse
    ||| kind == DrawElementType::Diamond
    ||| kind == DrawElementType::Line
    ||| kind == DrawElementType::Freedraw
    ||| kind == DrawElementType::Figure
}

/// A kind with a fill style.
pub open spec fn hatched(kind: DrawElementType) -> bool {
    backed(kind) && kind != DrawElementType::StickyNote
}

/// A kind that takes corners from a copied style.
pub open spec fn cornered(kind: DrawElementType) -> bool {
    ||| kind == DrawElementType::Rectangle
    ||| kind == DrawElementType::StickyNote
    ||| kind == DrawElementType::Embed
    ||| kind == DrawElementType::Image
    ||| kind == DrawElementType::Line
    ||| kind == DrawElementType::Arrow
    ||| kind == DrawElementType::Diamond
}

/// The arrow type a name stands for.
pub open spec fn arrow_type_named(value: Seq<char>) -> Option<ArrowType> {
    if value == "sharp"@ {
        Some(ArrowType::Sharp)
    } else if value == "round"@ {
        Some(ArrowType::Round)
    } else {
        None
    }
}

} // verus!

verus! {

impl<T: PartialEq> Common<T> {
    /// Nothing seen yet.
    pub fn new() -> (r: Self)
        ensures
            r == Common::<T>::Empty,
    {
        Common::Empty
    }

    /// Takes one more value into account: the first becomes the shared one, a different
    /// one makes the selection mixed for good.
    pub fn add(&mut self, value: T)
        requires
            T::obeys_eq_spec(),
        ensures
            *final(self) == added(*old(self), value),
    {
        let empty = match &*self {
            Common::Empty => true,
            _ => false,
        };
        let differs = match &*self {
            Common::One(held) => !(*held == value),
            _ => false,
        };
        if empty {
            *self = Common::One(value);
        } else if differs {
            *self = Common::Mixed;
        }
    }

    /// The value everything shares, or `None`: nothing seen, or a disagreement.
    pub fn get(self) -> (r: Option<T>)
        ensures
            r == shared(self),
    {
        match self {
            Common::One(value) => Some(value),
            Common::Empty | Common::Mixed => None,
        }
    }
}

impl ArrowType {
    /// `"sharp"` or `"round"`; anything else is `None`.
    pub fn parse(value: &str) -> (r: Option<Self>)
        ensures
            r == arrow_type_named(value@),
    {
        if is_text(value, "sharp") {
            Some(ArrowType::Sharp)
        } else if is_text(value, "round") {
            Some(ArrowType::Round)
        } else {
            None
        }
    }
}

/// Whether elements of `kind` have a stroke colour.
pub fn has_stroke_color(kind: DrawElementType) -> (r: bool)
    ensures
        r == stroked(kind),
{
    match kind {
        DrawElementType::Rectangle | DrawElementType::StickyNote | DrawElementType::Ellipse
        | DrawElementType::Diamond | DrawElementType::Freedraw | DrawElementType::Arrow
        | DrawElementType::Line | DrawElementType::Text | DrawElementType::Embed
        | DrawElementType::Figure => true,
        _ => false,
    }
}

/// Whether elements of `kind` have a background.
pub fn has_background(kind: DrawElementType) -> (r: bool)
    ensures
        r == backed(kind),
{
    match kind {
        DrawElementType::Rectangle | DrawElementType::StickyNote | DrawElementType::Embed
        | DrawElementType::Ellipse | DrawElementType::Diamond | DrawElementType::Line
        | DrawElementType::Freedraw | DrawElementType::Figure => true,
        _ => false,
    }
}

/// Whether elements of `kind` have a fill style.
pub fn has_fill_style(kind: DrawElementType) -> (r: bool)
    ensures
        r == hatched(kind),
{
    match kind {
        DrawElementType::Rectangle | DrawElementType::Embed | DrawElementType::Ellipse
        | DrawElementType::Diamond | DrawElementType::Line | DrawElementType::Freedraw
        | DrawElementType::Figure => true,
        _ => false,
    }
}

/// Whether elements of `kind` take corners from a copied style.
pub fn takes_roundness(kind: DrawElementType) -> (r: bool)
    ensures
        r == cornered(kind),
{
    match kind {
        DrawElementType::Rectangle | DrawElementType::StickyNote | DrawElementType::Embed
        | DrawElementType::Image | DrawElementType::Line | DrawElementType::Arrow
        | DrawElementType::Diamond => true,
        _ => false,
    }
}

/// Adds `kind` to `kinds` unless it is there already.
pub fn push_kind(kinds: &mut Vec<DrawElementType>, kind: DrawElementType)
    ensures
        old(kinds)@.contains(kind) ==> final(kinds)@ == old(kinds)@,
        !old(kinds)@.contains(kind) ==> final(kinds)@ == old(kinds)@.push(kind),
{
    let mut i: usize = 0;
    while i < kinds.len()
        invariant
            i <= kinds.len(),
            forall|j: int| 0 <= j < i ==> kinds@[j] != kind,
        decreases kinds.len() - i,
    {
        if kinds[i] == kind {
            assert(kinds@[i as int] == kind);
            return;
        }
        i = i + 1;
    }
    kinds.push(kind);
}

/// `a`, or a copy of `b` where `a` is `None`.
fn text_or(a: &Option<String>, b: &Option<String>) -> (r: Option<String>)
    ensures
        crate::element::ov(r) == or_else(crate::element::ov(*a), crate::element::ov(*b)),
{
    match a {
        Some(x) => Some(x.clone()),
        None => match b {
            Some(y) => Some(y.clone()),
            None => None,
        },
    }
}

/// `patch` laid over `base`: every field the patch sets, and the base's elsewhere.
pub fn merge_style_patch(base: &DrawElementStylePatch, patch: &DrawElementStylePatch) -> (r:
    DrawElementStylePatch)
    ensures
        r@ == merged(base@, patch@),
{
    DrawElementStylePatch {
        stroke_color: text_or(&patch.stroke_color, &base.stroke_color),
        background_color: text_or(&patch.background_color, &base.background_color),
        fill_style: match patch.fill_style {
            Some(v) => Some(v),
            None => base.fill_style,
        },
        stroke_width: match patch.stroke_width {
            Some(v) => Some(v),
            None => base.stroke_width,
        },
        stroke_style: match patch.stroke_style {
            Some(v) => Some(v),
            None => base.stroke_style,
        },
        roughness: match patch.roughness {
            Some(v) => Some(v),
            None => base.roughness,
        },
        opacity: match patch.opacity {
            Some(v) => Some(v),
            None => base.opacity,
        },
        roundness: match patch.roundness {
            Some(v) => Some(v),
            None => base.roundness,
        },
    }
}

} // verus!

verus! {

/// Laying the empty patch over a base, or a patch over the empty base, changes nothing.
pub proof fn lemma_merge_empty(p: PatchView)
    ensures
        merged(p, empty_patch()) == p,
        merged(empty_patch(), p) == p,
{
    assert(merged(p, empty_patch()) =~= p);
    assert(merged(empty_patch(), p) =~= p);
}

/// Merging is associative: laying `c` over the merge of `a` and `b` is laying the merge of
/// `b` and `c` over `a`.
pub proof fn lemma_merge_associative(a: PatchView, b: PatchView, c: PatchView)
    ensures
        merged(merged(a, b), c) == merged(a, merged(b, c)),
{
    assert(merged(merged(a, b), c) =~= merged(a, merged(b, c)));
}

/// Laying a patch over itself changes nothing, and laying it twice is laying it once.
pub proof fn lemma_merge_idempotent(base: PatchView, p: PatchView)
    ensures
        merged(p, p) == p,
        merged(merged(base, p), p) == merged(base, p),
{
    assert(merged(p, p) =~= p);
    assert(merged(merged(base, p), p) =~= merged(base, p));
}

/// Once a disagreement is seen, no value makes the selection agree again.
pub proof fn lemma_mixed_stays<T: PartialEq>(value: T)
    ensures
        added(Common::<T>::Mixed, value) == Common::<T>::Mixed,
        shared(added(Common::<T>::Mixed, value)) is None,
{
}

/// What a run of values shares once each is added in turn.
pub open spec fn fold_common<T: PartialEq>(vs: Seq<T>) -> Common<T>
    decreases vs.len(),
{
    if vs.len() == 0 {
        Common::Empty
    } else {
        added(fold_common(vs.drop_last()), vs.last())
    }
}

/// A shared value is shown only where everything agrees: the values added in turn share
/// the first of them when every later one agrees with it, nothing was seen when there are
/// none, and otherwise they are mixed for good.
pub proof fn lemma_shared_only_when_agreed<T: PartialEq>(vs: Seq<T>)
    ensures
        fold_common(vs) == if vs.len() == 0 {
            Common::<T>::Empty
        } else if forall|i: int| 1 <= i < vs.len() ==> vs[0].eq_spec(&#[trigger] vs[i]) {
            Common::One(vs[0])
        } else {
            Common::<T>::Mixed
        },
        vs.len() > 0 && (forall|i: int| 1 <= i < vs.len() ==> vs[0].eq_spec(&#[trigger] vs[i])) ==> shared(
            fold_common(vs),
        ) == Some(vs[0]),
        !(forall|i: int| 1 <= i < vs.len() ==> vs[0].eq_spec(&#[trigger] vs[i])) ==> shared(fold_common(vs))
            is None,
    decreases vs.len(),
{
    if vs.len() > 1 {
        let rest = vs.drop_last();
        lemma_shared_only_when_agreed(rest);
        assert(fold_common(vs) == added(fold_common(rest), vs.last()));
        assert(vs.last() == vs[vs.len() - 1]);
        assert(rest[0] == vs[0]);
        assert forall|i: int| 1 <= i < rest.len() implies rest[i] == vs[i] by {}
        if forall|i: int| 1 <= i < rest.len() ==> vs[0].eq_spec(&#[trigger] vs[i]) {
            if !vs[0].eq_spec(&vs[vs.len() - 1]) {
                assert(!(forall|i: int| 1 <= i < vs.len() ==> vs[0].eq_spec(&#[trigger] vs[i])));
            } else {
                assert forall|i: int| 1 <= i < vs.len() implies vs[0].eq_spec(&#[trigger] vs[i]) by {
                    if i < rest.len() {
                        assert(rest[i] == vs[i]);
                    }
                }
            }
        } else {
            let k = choose|k: int| 1 <= k < rest.len() && !vs[0].eq_spec(&#[trigger] vs[k]);
            assert(!vs[0].eq_spec(&vs[k]));
        }
    } else if vs.len() == 1 {
        assert(fold_common(vs.drop_last()) == Common::<T>::Empty);
        assert(vs.last() == vs[0]);
        assert(fold_common(vs) == Common::One(vs[0]));
    }
}

} // verus!
