//! The element model the editing rules read, and the id helpers they share.
//!
//! An element carries the plain facts the rules decide on: its id, its kind, whether it
//! is deleted or locked, the groups it belongs to (innermost first), the frame, container
//! and label it is tied to, the shapes its ends are bound to, and its version stamp.
//! Geometry is not here: no rule in this library reads a coordinate.
//!
//! Sets of ids are held as a `Vec<String>` whose meaning is the set of the ids' texts;
//! every set this library builds holds each id once.

use vstd::prelude::*;

verus! {

/// The kinds of element a board holds.
#[derive(Clone, Copy, Debug, PartialEq, Eq, Structural)]
pub enum DrawElementType {
    Rectangle,
    Diamond,
    Ellipse,
    StickyNote,
    Figure,
    Frame,
    Text,
    Line,
    Arrow,
    Freedraw,
    Image,
    Embed,
}

/// How a label sits across its container.
#[derive(Clone, Copy, Debug, PartialEq, Eq, Structural)]
pub enum TextAlign {
    Left,
    Center,
    Right,
}

/// How a label sits down its container.
#[derive(Clone, Copy, Debug, PartialEq, Eq, Structural)]
pub enum VerticalAlign {
    Top,
    Middle,
    Bottom,
}

/// One element of a board, as the editing rules see it.
#[derive(Clone, Debug)]
pub struct DrawElement {
    pub id: String,
    pub kind: DrawElementType,
    pub is_deleted: bool,
    pub locked: bool,
    /// The groups the element belongs to, innermost first.
    pub group_ids: Vec<String>,
    pub frame_id: Option<String>,
    /// Set on a label: the shape it is written in.
    pub container_id: Option<String>,
    /// Set on a shape: its label.
    pub bound_text_id: Option<String>,
    /// The shape a line's start is bound to.
    pub start_binding: Option<String>,
    /// The shape a line's end is bound to.
    pub end_binding: Option<String>,
    /// An arrow routed at right angles.
    pub elbowed: bool,
    pub polygon: Option<bool>,
    /// How many points a line or freehand stroke has.
    pub point_count: usize,
    pub background_color: String,
    pub text_align: Option<TextAlign>,
    pub vertical_align: Option<VerticalAlign>,
    pub auto_resize: Option<bool>,
    pub version: u32,
    pub version_nonce: u32,
    /// When the element was last stamped, as a key that orders as the stamp times do.
    pub updated: u64,
    /// An image's picture.
    pub data_url: Option<String>,
    /// A line's head at its start, by name; none where the line sets none of its own.
    pub start_arrowhead: Option<String>,
    /// A line's head at its end, by name.
    pub end_arrowhead: Option<String>,
}

/// An element's contents as values.
#[verifier::ext_equal]
pub struct ElementView {
    pub id: Seq<char>,
    pub kind: DrawElementType,
    pub is_deleted: bool,
    pub locked: bool,
    pub group_ids: Seq<Seq<char>>,
    pub frame_id: Option<Seq<char>>,
    pub container_id: Option<Seq<char>>,
    pub bound_text_id: Option<Seq<char>>,
    pub start_binding: Option<Seq<char>>,
    pub end_binding: Option<Seq<char>>,
    pub elbowed: bool,
    pub polygon: Option<bool>,
    pub point_count: usize,
    pub background_color: Seq<char>,
    pub text_align: Option<TextAlign>,
    pub vertical_align: Option<VerticalAlign>,
    pub auto_resize: Option<bool>,
    pub version: u32,
    pub version_nonce: u32,
    pub updated: u64,
    pub data_url: Option<Seq<char>>,
    pub start_arrowhead: Option<Seq<char>>,
    pub end_arrowhead: Option<Seq<char>>,
}

/// Whether `value` is the text `name`.
pub fn is_text(value: &str, name: &str) -> (r: bool)
    ensures
        r == (value@ == name@),
{
    value.to_owned() == name.to_owned()
}

/// The texts of a sequence of strings.
pub open spec fn sv(s: Seq<String>) -> Seq<Seq<char>> {
    Seq::new(s.len(), |i: int| s[i]@)
}

/// The text of an optional string.
pub open spec fn ov(o: Option<String>) -> Option<Seq<char>> {
    match o {
        Some(s) => Some(s@),
        None => None,
    }
}

/// The text of an optional borrowed string.
pub open spec fn rv(o: Option<&String>) -> Option<Seq<char>> {
    match o {
        Some(s) => Some(s@),
        None => None,
    }
}

/// The text of an optional borrowed slice of text.
pub open spec fn strv(o: Option<&str>) -> Option<Seq<char>> {
    match o {
        Some(s) => Some(s@),
        None => None,
    }
}

/// The set of ids a `Vec<String>` holds.
pub open spec fn idset(s: Seq<String>) -> Set<Seq<char>> {
    Set::new(|x: Seq<char>| sv(s).contains(x))
}

/// Each id held once.
pub open spec fn distinct(s: Seq<String>) -> bool {
    sv(s).no_duplicates()
}

impl View for DrawElement {
    type V = ElementView;

    open spec fn view(&self) -> ElementView {
        ElementView {
            id: self.id@,
            kind: self.kind,
            is_deleted: self.is_deleted,
            locked: self.locked,
            group_ids: sv(self.group_ids@),
            frame_id: ov(self.frame_id),
            container_id: ov(self.container_id),
            bound_text_id: ov(self.bound_text_id),
            start_binding: ov(self.start_binding),
            end_binding: ov(self.end_binding),
            elbowed: self.elbowed,
            polygon: self.polygon,
            point_count: self.point_count,
            background_color: self.background_color@,
            text_align: self.text_align,
            vertical_align: self.vertical_align,
            auto_resize: self.auto_resize,
            version: self.version,
            version_nonce: self.version_nonce,
            updated: self.updated,
            data_url: ov(self.data_url),
            start_arrowhead: ov(self.start_arrowhead),
            end_arrowhead: ov(self.end_arrowhead),
        }
    }
}

/// The elements of a board as values.
pub open spec fn scene(s: Seq<DrawElement>) -> Seq<ElementView> {
    Seq::new(s.len(), |i: int| s[i]@)
}

/// Whether an element is a frame.
pub open spec fn frame_kind(e: ElementView) -> bool {
    e.kind == DrawElementType::Frame
}

/// The set a single id makes.
pub proof fn lemma_idset_single(v: Seq<String>)
    requires
        v.len() == 1,
    ensures
        idset(v) == set![v[0]@],
        distinct(v),
{
    assert(sv(v)[0] == v[0]@);
    assert forall|x: Seq<char>| idset(v).contains(x) == set![v[0]@].contains(x) by {
        if idset(v).contains(x) {
            let k = choose|k: int| 0 <= k < sv(v).len() && #[trigger] sv(v)[k] == x;
        }
    }
    assert(idset(v) =~= set![v[0]@]);
}

/// A copy of `s` with the same text.
pub fn copy_string(s: &String) -> (r: String)
    ensures
        r@ == s@,
{
    s.clone()
}

/// A copy of an optional string with the same text.
pub fn copy_opt(o: &Option<String>) -> (r: Option<String>)
    ensures
        ov(r) == ov(*o),
{
    match o {
        Some(s) => Some(s.clone()),
        None => None,
    }
}

/// A copy of a list of ids with the same texts, in the same order.
pub fn copy_ids(v: &Vec<String>) -> (r: Vec<String>)
    ensures
        sv(r@) == sv(v@),
{
    let mut r: Vec<String> = Vec::new();
    let mut i: usize = 0;
    while i < v.len()
        invariant
            i <= v.len(),
            r.len() == i,
            forall|j: int| 0 <= j < i ==> r@[j]@ == v@[j]@,
        decreases v.len() - i,
    {
        r.push(v[i].clone());
        i = i + 1;
    }
    assert(sv(r@) =~= sv(v@));
    r
}

/// Whether two strings hold the same text.
pub fn same_text(a: &String, b: &String) -> (r: bool)
    ensures
        r == (a@ == b@),
{
    *a == *b
}

/// Where `x` first occurs in `ids`.
pub fn position_of(ids: &Vec<String>, x: &String) -> (r: Option<usize>)
    ensures
        match r {
            Some(k) => {
                &&& sv(ids@).index_of_first(x@) == Some(k as int)
                &&& k < ids.len()
                &&& ids@[k as int]@ == x@
                &&& forall|j: int| 0 <= j < k ==> ids@[j]@ != x@
            },
            None => {
                &&& sv(ids@).index_of_first(x@) == None::<int>
                &&& !sv(ids@).contains(x@)
            },
        },
{
    let ghost s = sv(ids@);
    proof {
        s.index_of_first_ensures(x@);
    }
    let mut i: usize = 0;
    while i < ids.len()
        invariant
            i <= ids.len(),
            s == sv(ids@),
            forall|j: int| 0 <= j < i ==> s[j] != x@,
            forall|j: int| 0 <= j < i ==> ids@[j]@ != x@,
            match s.index_of_first(x@) {
                Some(index) => {
                    &&& s.contains(x@)
                    &&& 0 <= index < s.len()
                    &&& s[index] == x@
                    &&& forall|j: int| 0 <= j < index < s.len() ==> s[j] != x@
                },
                None => !s.contains(x@),
            },
        decreases ids.len() - i,
    {
        if same_text(&ids[i], x) {
            assert(s[i as int] == x@);
            assert(s.contains(x@));
            proof {
                let k = s.index_of_first(x@).unwrap();
                if k < i {
                    assert(s[k] != x@);
                }
                if k > i {
                    assert(s[i as int] != x@);
                }
            }
            return Some(i);
        }
        i = i + 1;
    }
    proof {
        if s.contains(x@) {
            let k = choose|k: int| 0 <= k < s.len() && s[k] == x@;
            assert(s[k] != x@);
        }
    }
    None
}

/// Whether `ids` holds `x`.
pub fn contains_id(ids: &Vec<String>, x: &String) -> (r: bool)
    ensures
        r == sv(ids@).contains(x@),
{
    let mut i: usize = 0;
    while i < ids.len()
        invariant
            i <= ids.len(),
            forall|j: int| 0 <= j < i ==> ids@[j]@ != x@,
        decreases ids.len() - i,
    {
        if same_text(&ids[i], x) {
            assert(sv(ids@)[i as int] == x@);
            return true;
        }
        i = i + 1;
    }
    proof {
        if sv(ids@).contains(x@) {
            let k = choose|k: int| 0 <= k < sv(ids@).len() && sv(ids@)[k] == x@;
            assert(ids@[k]@ == x@);
        }
    }
    false
}

/// Adds `x` to the set `ids` unless it is there already.
pub fn add_id(ids: &mut Vec<String>, x: String)
    requires
        distinct(old(ids)@),
    ensures
        distinct(final(ids)@),
        idset(final(ids)@) == idset(old(ids)@).insert(x@),
        sv(old(ids)@).contains(x@) ==> final(ids)@ == old(ids)@,
        !sv(old(ids)@).contains(x@) ==> sv(final(ids)@) == sv(old(ids)@).push(x@),
{
    if !contains_id(ids, &x) {
        let ghost before = sv(ids@);
        ids.push(x);
        assert(sv(ids@) =~= before.push(x@));
        proof {
            assert forall|a: int, b: int|
                0 <= a < sv(ids@).len() && 0 <= b < sv(ids@).len() && a != b implies sv(ids@)[a]
                != sv(ids@)[b] by {
                if a < before.len() && b < before.len() {
                } else if a == before.len() {
                    assert(before[b] == sv(ids@)[b]);
                    assert(before.contains(before[b]));
                } else {
                    assert(before[a] == sv(ids@)[a]);
                    assert(before.contains(before[a]));
                }
            }
            assert forall|y: Seq<char>| idset(ids@).contains(y) == idset(old(ids)@).insert(x@).contains(y) by {
                if y == x@ {
                    assert(sv(ids@)[before.len() as int] == y);
                } else if before.contains(y) {
                    let k = choose|k: int| 0 <= k < before.len() && before[k] == y;
                    assert(sv(ids@)[k] == y);
                } else if sv(ids@).contains(y) {
                    let k = choose|k: int| 0 <= k < sv(ids@).len() && sv(ids@)[k] == y;
                    assert(before[k] == y);
                }
            }
            assert(idset(ids@) =~= idset(old(ids)@).insert(x@));
        }
    } else {
        assert(idset(ids@) =~= idset(ids@).insert(x@));
    }
}

impl DrawElement {
    /// A live, unlocked element of `kind` with nothing tied to it.
    pub fn new(id: String, kind: DrawElementType) -> (r: Self)
        ensures
            r@.id == id@,
            r@.kind == kind,
            !r@.is_deleted,
            !r@.locked,
            r@.group_ids.len() == 0,
            r@.frame_id is None,
            r@.container_id is None,
            r@.bound_text_id is None,
            r@.start_binding is None,
            r@.end_binding is None,
            !r@.elbowed,
            r@.polygon is None,
            r@.point_count == 0,
            r@.text_align is None,
            r@.vertical_align is None,
            r@.auto_resize is None,
            r@.version == 1,
            r@.version_nonce == 0,
            r@.updated == 0,
            r@.data_url is None,
            r@.start_arrowhead is None,
            r@.end_arrowhead is None,
    {
        DrawElement {
            id,
            kind,
            is_deleted: false,
            locked: false,
            group_ids: Vec::new(),
            frame_id: None,
            container_id: None,
            bound_text_id: None,
            start_binding: None,
            end_binding: None,
            elbowed: false,
            polygon: None,
            point_count: 0,
            background_color: String::new(),
            text_align: None,
            vertical_align: None,
            auto_resize: None,
            version: 1,
            version_nonce: 0,
            updated: 0,
            data_url: None,
            start_arrowhead: None,
            end_arrowhead: None,
        }
    }

    /// Whether the element may not be picked up on its own.
    pub fn locked(&self) -> (r: bool)
        ensures
            r == self@.locked,
    {
        self.locked
    }

    /// Whether the element is a closed polygon.
    pub fn is_polygon(&self) -> (r: bool)
        ensures
            r == (self@.polygon == Some(true)),
    {
        match self.polygon {
            Some(b) => b,
            None => false,
        }
    }

    /// A copy of the element with the same contents.
    pub fn duplicate(&self) -> (r: Self)
        ensures
            r@ == self@,
    {
        DrawElement {
            id: copy_string(&self.id),
            kind: self.kind,
            is_deleted: self.is_deleted,
            locked: self.locked,
            group_ids: copy_ids(&self.group_ids),
            frame_id: copy_opt(&self.frame_id),
            container_id: copy_opt(&self.container_id),
            bound_text_id: copy_opt(&self.bound_text_id),
            start_binding: copy_opt(&self.start_binding),
            end_binding: copy_opt(&self.end_binding),
            elbowed: self.elbowed,
            polygon: self.polygon,
            point_count: self.point_count,
            background_color: copy_string(&self.background_color),
            text_align: self.text_align,
            vertical_align: self.vertical_align,
            auto_resize: self.auto_resize,
            version: self.version,
            version_nonce: self.version_nonce,
            updated: self.updated,
            data_url: copy_opt(&self.data_url),
            start_arrowhead: copy_opt(&self.start_arrowhead),
            end_arrowhead: copy_opt(&self.end_arrowhead),
        }
    }
}

/// Whether an element is a frame.
pub fn is_frame(element: &DrawElement) -> (r: bool)
    ensures
        r == frame_kind(element@),
{
    element.kind == DrawElementType::Frame
}

} // verus!
