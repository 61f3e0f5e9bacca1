//! Walking a flowchart by keyboard: which nodes a node links to, side by side, and the
//! navigator that a run of presses steps through.
//!
//! Which side of a node an arrow end lies on is geometry; the caller works it out and
//! hands it in, one heading per element of the board. Everything decided from there on
//! is here.

use vstd::prelude::*;
use crate::element::{add_id, contains_id, copy_ids, distinct, idset, is_text, ov, same_text, scene, sv, DrawElement,
    DrawElementType, ElementView};

verus! {

/// Which way an arrow points, or a person navigates.
#[derive(Clone, Copy, Debug, PartialEq, Eq, Structural)]
pub enum LinkDirection {
    Up,
    Down,
    Left,
    Right,
}

/// The direction a name stands for.
pub open spec fn direction_named(value: Seq<char>) -> Option<LinkDirection> {
    if value == "up"@ {
        Some(LinkDirection::Up)
    } else if value == "down"@ {
        Some(LinkDirection::Down)
    } else if value == "left"@ {
        Some(LinkDirection::Left)
    } else if value == "right"@ {
        Some(LinkDirection::Right)
    } else {
        None
    }
}

/// A shape a flowchart is built of.
pub open spec fn node_kind(e: ElementView) -> bool {
    ||| e.kind == DrawElementType::Rectangle
    ||| e.kind == DrawElementType::Diamond
    ||| e.kind == DrawElementType::Ellipse
    ||| e.kind == DrawElementType::StickyNote
    ||| e.kind == DrawElementType::Figure
}

/// An arrow that links two nodes: an elbow arrow.
pub open spec fn link(e: ElementView) -> bool {
    e.kind == DrawElementType::Arrow && e.elbowed
}

/// Some live element of the board has id `id` (a board holds each id once).
pub open spec fn live_id(s: Seq<ElementView>, id: Seq<char>) -> bool {
    exists|j: int| 0 <= j < s.len() && #[trigger] s[j].id == id && !s[j].is_deleted
}

/// What the element at `i` contributes to the relatives of `node` on the side `direction`:
/// for successors, the far end of a link that starts at `node`; for predecessors, the near
/// end of one that finishes there; kept when it is live and the link's end at `node` lies
/// on that side.
pub open spec fn relative_at(
    s: Seq<ElementView>,
    successors: bool,
    node: Seq<char>,
    headings: Seq<Option<LinkDirection>>,
    direction: LinkDirection,
) -> spec_fn(int) -> Option<Seq<char>> {
    |i: int|
        {
            let a = s[i];
            let own = if successors {
                a.start_binding
            } else {
                a.end_binding
            };
            let opposite = if successors {
                a.end_binding
            } else {
                a.start_binding
            };
            if link(a) && opposite is Some && own == Some(node) && live_id(s, opposite.unwrap())
                && headings[i] == Some(direction) {
                opposite
            } else {
                None
            }
        }
}

/// The relatives of `node` on one side, in board order.
pub open spec fn relatives(
    s: Seq<ElementView>,
    successors: bool,
    node: Seq<char>,
    headings: Seq<Option<LinkDirection>>,
    direction: LinkDirection,
) -> Seq<Seq<char>> {
    Seq::new(s.len(), |i: int| i).filter_map(relative_at(s, successors, node, headings, direction))
}

} // verus!

verus! {

impl LinkDirection {
    /// The direction a plain name stands for; `None` for anything else.
    pub fn parse(value: &str) -> (r: Option<Self>)
        ensures
            r == direction_named(value@),
    {
        if is_text(value, "up") {
            Some(LinkDirection::Up)
        } else if is_text(value, "down") {
            Some(LinkDirection::Down)
        } else if is_text(value, "left") {
            Some(LinkDirection::Left)
        } else if is_text(value, "right") {
            Some(LinkDirection::Right)
        } else {
            None
        }
    }
}

/// Whether `element` can start or extend a flowchart.
pub fn is_flowchart_node(element: &DrawElement) -> (r: bool)
    ensures
        r == node_kind(element@),
{
    match element.kind {
        DrawElementType::Rectangle | DrawElementType::Diamond | DrawElementType::Ellipse
        | DrawElementType::StickyNote | DrawElementType::Figure => true,
        _ => false,
    }
}

/// Whether `element` links two flowchart nodes.
pub fn is_flowchart_link(element: &DrawElement) -> (r: bool)
    ensures
        r == link(element@),
{
    element.kind == DrawElementType::Arrow && element.elbowed
}

/// Whether some live element of `elements` has id `id`.
fn is_live_id(elements: &[DrawElement], id: &String) -> (r: bool)
    ensures
        r == live_id(scene(elements@), id@),
{
    let ghost s = scene(elements@);
    let mut i: usize = 0;
    while i < elements.len()
        invariant
            i <= elements.len(),
            s == scene(elements@),
            forall|j: int| 0 <= j < i ==> !(#[trigger] s[j].id == id@ && !s[j].is_deleted),
        decreases elements.len() - i,
    {
        assert(s[i as int] == elements@[i as int]@);
        if same_text(&elements[i].id, id) && !elements[i].is_deleted {
            assert(s[i as int].id == id@ && !s[i as int].is_deleted);
            return true;
        }
        i = i + 1;
    }
    false
}

/// The nodes linked to `node` whose link leaves it (`successors`) or arrives at it (not) on
/// the side facing `direction`, in board order. `headings[i]` is the side of `node` that
/// the end of the `i`-th element's points at `node` lies on: its first point for
/// successors, its last for predecessors (`None` when it has none).
pub fn node_relatives(
    successors: bool,
    node: &DrawElement,
    elements: &[DrawElement],
    headings: &[Option<LinkDirection>],
    direction: LinkDirection,
) -> (r: Vec<String>)
    requires
        headings.len() == elements.len(),
    ensures
        sv(r@) == relatives(scene(elements@), successors, node@.id, headings@, direction),
{
    let ghost s = scene(elements@);
    let ghost all = Seq::new(s.len(), |i: int| i);
    let ghost f = relative_at(s, successors, node@.id, headings@, direction);
    let mut out: Vec<String> = Vec::new();
    let mut i: usize = 0;
    while i < elements.len()
        invariant
            i <= elements.len(),
            headings.len() == elements.len(),
            s == scene(elements@),
            all == Seq::new(s.len(), |i: int| i),
            f == relative_at(s, successors, node@.id, headings@, direction),
            sv(out@) == all.take(i as int).filter_map(f),
        decreases elements.len() - i,
    {
        proof {
            crate::group::lemma_filter_map_step(all, f, i as int);
        }
        assert(all[i as int] == i as int);
        let arrow = &elements[i];
        assert(s[i as int] == arrow@);
        let own = if successors {
            &arrow.start_binding
        } else {
            &arrow.end_binding
        };
        let opposite = if successors {
            &arrow.end_binding
        } else {
            &arrow.start_binding
        };
        let mut found = false;
        if is_flowchart_link(arrow) {
            match opposite {
                Some(o) => {
                    let at_node = match own {
                        Some(x) => same_text(x, &node.id),
                        None => false,
                    };
                    if at_node && is_live_id(elements, o) && headings[i] == Some(direction) {
                        let ghost before = out@;
                        out.push(o.clone());
                        assert(sv(out@) =~= sv(before).push(o@));
                        found = true;
                    }
                },
                None => {},
            }
        }
        assert(found == (f(i as int) is Some));
        i = i + 1;
    }
    assert(all.take(elements.len() as int) =~= all);
    out
}

/// The nodes linked to `node` on the side facing `direction`: successors, then
/// predecessors. `leaving` and `arriving` are the headings of each element's first and last
/// point.
pub fn linked_nodes(
    node: &DrawElement,
    elements: &[DrawElement],
    leaving: &[Option<LinkDirection>],
    arriving: &[Option<LinkDirection>],
    direction: LinkDirection,
) -> (r: Vec<String>)
    requires
        leaving.len() == elements.len(),
        arriving.len() == elements.len(),
    ensures
        sv(r@) == relatives(scene(elements@), true, node@.id, leaving@, direction) + relatives(
            scene(elements@),
            false,
            node@.id,
            arriving@,
            direction,
        ),
{
    let mut nodes = node_relatives(true, node, elements, leaving, direction);
    let mut more = node_relatives(false, node, elements, arriving, direction);
    let ghost a = nodes@;
    let ghost b = more@;
    nodes.append(&mut more);
    assert(sv(nodes@) =~= sv(a) + sv(b));
    nodes
}

} // verus!

verus! {

/// A navigator's state as values.
#[verifier::ext_equal]
pub struct NavView {
    /// A direction is being explored.
    pub exploring: bool,
    /// The nodes at the level being explored.
    pub same_level: Seq<Seq<char>>,
    /// Where in `same_level` the last press landed.
    pub index: int,
    /// The direction being explored.
    pub direction: Option<LinkDirection>,
    /// The nodes already visited in this run of presses.
    pub visited: Set<Seq<char>>,
}

/// Where a direction's nodes stand among the four handed to a press: up, right, down, left.
pub open spec fn dir_index(d: LinkDirection) -> int {
    match d {
        LinkDirection::Up => 0,
        LinkDirection::Right => 1,
        LinkDirection::Down => 2,
        LinkDirection::Left => 3,
    }
}

/// A navigator that has explored nothing.
pub open spec fn cleared() -> NavView {
    NavView {
        exploring: false,
        same_level: Seq::empty(),
        index: 0,
        direction: None,
        visited: Set::empty(),
    }
}

/// The linked nodes of the directions before `k` in the order up, right, down, left, all
/// but `d`.
pub open spec fn pool_upto(linked: Seq<Seq<Seq<char>>>, d: LinkDirection, k: int) -> Seq<Seq<char>>
    decreases k,
{
    if k <= 0 {
        Seq::empty()
    } else if dir_index(d) == k - 1 {
        pool_upto(linked, d, k - 1)
    } else {
        pool_upto(linked, d, k - 1) + linked[k - 1]
    }
}

/// The nodes a press falls back on: those of every other direction, in the order up,
/// right, down, left.
pub open spec fn fallback_pool(linked: Seq<Seq<Seq<char>>>, d: LinkDirection) -> Seq<Seq<char>> {
    pool_upto(linked, d, 4)
}

/// The first node of `pool` not yet visited.
pub open spec fn first_fresh(pool: Seq<Seq<char>>, visited: Set<Seq<char>>) -> Option<Seq<char>>
    decreases pool.len(),
{
    if pool.len() == 0 {
        None
    } else if !visited.contains(pool[0]) {
        Some(pool[0])
    } else {
        first_fresh(pool.drop_first(), visited)
    }
}

/// One press in `direction` on the node `id`: the navigator's next state and the node to
/// select. `linked` holds the node's linked nodes in each direction, up, right, down,
/// left; `is_target` whether the node is a shape arrows can bind to.
///
/// A change of direction starts afresh. A repeat press with several nodes at the level
/// being explored steps to the next of them, round and round. Otherwise the first node in
/// the direction opens a new level; and when there is none, the first node not yet visited
/// in any other direction is taken.
pub open spec fn explored(
    n: NavView,
    id: Seq<char>,
    is_target: bool,
    linked: Seq<Seq<Seq<char>>>,
    direction: LinkDirection,
) -> (NavView, Option<Seq<char>>) {
    if !is_target {
        (n, None)
    } else {
        let base = if n.direction != Some(direction) {
            cleared()
        } else {
            n
        };
        let s1 = NavView { visited: base.visited.insert(id), ..base };
        let nodes = linked[dir_index(direction)];
        if s1.exploring && s1.direction == Some(direction) && s1.same_level.len() > 1 {
            let k = (s1.index + 1) % (s1.same_level.len() as int);
            (NavView { index: k, ..s1 }, Some(s1.same_level[k]))
        } else if nodes.len() > 0 {
            (
                NavView {
                    exploring: true,
                    same_level: nodes,
                    index: 0,
                    direction: Some(direction),
                    visited: s1.visited.insert(nodes[0]),
                },
                Some(nodes[0]),
            )
        } else if s1.direction == Some(direction) || !s1.exploring {
            match first_fresh(fallback_pool(linked, direction), s1.visited) {
                Some(c) => (
                    NavView {
                        exploring: true,
                        direction: Some(direction),
                        visited: s1.visited.insert(c),
                        ..s1
                    },
                    Some(c),
                ),
                None => (s1, None),
            }
        } else {
            (s1, None)
        }
    }
}

/// The linked nodes handed to a press, as values.
pub open spec fn links(linked: [Vec<String>; 4]) -> Seq<Seq<Seq<char>>> {
    Seq::new(4, |k: int| sv(linked@[k]@))
}

/// Scanning a pool past a visited node finds what scanning from the next one finds.
proof fn lemma_first_fresh_step(pool: Seq<Seq<char>>, visited: Set<Seq<char>>, j: int)
    requires
        0 <= j < pool.len(),
    ensures
        first_fresh(pool.skip(j), visited) == if !visited.contains(pool[j]) {
            Some(pool[j])
        } else {
            first_fresh(pool.skip(j + 1), visited)
        },
{
    assert(pool.skip(j)[0] == pool[j]);
    assert(pool.skip(j).drop_first() =~= pool.skip(j + 1));
}

/// The state of a run of Alt+Arrow presses: the direction being explored, the nodes at
/// that level, and what has been visited so that the run does not loop on itself.
pub struct FlowchartNavigator {
    exploring: bool,
    same_level: Vec<String>,
    index: usize,
    direction: Option<LinkDirection>,
    visited: Vec<String>,
}

impl View for FlowchartNavigator {
    type V = NavView;

    closed spec fn view(&self) -> NavView {
        NavView {
            exploring: self.exploring,
            same_level: sv(self.same_level@),
            index: self.index as int,
            direction: self.direction,
            visited: idset(self.visited@),
        }
    }
}

/// Whether `a` is `Some(d)`.
fn is_direction(a: Option<LinkDirection>, d: LinkDirection) -> (r: bool)
    ensures
        r == (a == Some(d)),
{
    match a {
        Some(x) => x == d,
        None => false,
    }
}

/// Where `d`'s nodes stand among the four handed to a press.
fn direction_index(d: LinkDirection) -> (r: usize)
    ensures
        r == dir_index(d),
{
    match d {
        LinkDirection::Up => 0,
        LinkDirection::Right => 1,
        LinkDirection::Down => 2,
        LinkDirection::Left => 3,
    }
}

impl FlowchartNavigator {
    /// The navigator keeps its step within the level, and each visited node once.
    pub closed spec fn wf(&self) -> bool {
        &&& distinct(self.visited@)
        &&& (self.index < self.same_level.len() || self.index == 0)
    }

    /// A navigator that has explored nothing.
    pub fn new() -> (r: Self)
        ensures
            r.wf(),
            r@ == cleared(),
    {
        let r = FlowchartNavigator {
            exploring: false,
            same_level: Vec::new(),
            index: 0,
            direction: None,
            visited: Vec::new(),
        };
        assert(sv(r.same_level@) =~= Seq::<Seq<char>>::empty());
        assert(idset(r.visited@) =~= Set::<Seq<char>>::empty());
        r
    }

    /// Whether a direction is being explored.
    pub fn exploring(&self) -> (r: bool)
        ensures
            r == self@.exploring,
    {
        self.exploring
    }

    /// Forgets the run: nothing explored, nothing visited.
    pub fn clear(&mut self)
        ensures
            final(self).wf(),
            final(self)@ == cleared(),
    {
        self.exploring = false;
        self.same_level = Vec::new();
        self.index = 0;
        self.direction = None;
        self.visited = Vec::new();
        assert(sv(self.same_level@) =~= Seq::<Seq<char>>::empty());
        assert(idset(self.visited@) =~= Set::<Seq<char>>::empty());
        assert(self@ =~= cleared());
    }

    /// The candidates a press falls back on, as one list.
    fn pool(linked: &[Vec<String>; 4], direction: LinkDirection) -> (r: Vec<String>)
        ensures
            sv(r@) == fallback_pool(links(*linked), direction),
    {
        let ghost l = links(*linked);
        let d = direction_index(direction);
        let mut pool: Vec<String> = Vec::new();
        let mut k: usize = 0;
        while k < 4
            invariant
                k <= 4,
                l == links(*linked),
                d == dir_index(direction),
                sv(pool@) == pool_upto(l, direction, k as int),
            decreases 4 - k,
        {
            if k != d {
                let mut more = copy_ids(&linked[k]);
                let ghost a = pool@;
                let ghost b = more@;
                pool.append(&mut more);
                assert(sv(pool@) =~= sv(a) + sv(b));
                assert(l[k as int] == sv(linked@[k as int]@));
            }
            k = k + 1;
        }
        pool
    }

    /// One Alt+Arrow press on the node `element_id`: the node to select next, or `None`
    /// when there is nowhere to go. `linked` holds the node's linked nodes in each
    /// direction, up, right, down, left ([`linked_nodes`]); `is_target` whether the node is
    /// a shape arrows can bind to.
    pub fn explore(
        &mut self,
        element_id: &String,
        is_target: bool,
        linked: &[Vec<String>; 4],
        direction: LinkDirection,
    ) -> (r: Option<String>)
        requires
            old(self).wf(),
        ensures
            final(self).wf(),
            (final(self)@, ov(r)) == explored(
                old(self)@,
                element_id@,
                is_target,
                links(*linked),
                direction,
            ),
    {
        let ghost l = links(*linked);
        if !is_target {
            return None;
        }
        if !is_direction(self.direction, direction) {
            self.clear();
        }
        add_id(&mut self.visited, element_id.clone());
        let ghost s1 = self@;
        let ghost base = if old(self)@.direction != Some(direction) {
            cleared()
        } else {
            old(self)@
        };
        assert(s1 =~= NavView { visited: base.visited.insert(element_id@), ..base });
        if self.exploring && is_direction(self.direction, direction) && self.same_level.len() > 1 {
            self.index = (self.index + 1) % self.same_level.len();
            let next = self.same_level[self.index].clone();
            assert(self@ =~= NavView { index: self.index as int, ..s1 });
            return Some(next);
        }
        let d = direction_index(direction);
        assert(l[d as int] == sv(linked@[d as int]@));
        if linked[d].len() > 0 {
            let first = linked[d][0].clone();
            self.index = 0;
            self.exploring = true;
            self.same_level = copy_ids(&linked[d]);
            self.direction = Some(direction);
            add_id(&mut self.visited, first.clone());
            assert(self@ =~= NavView {
                exploring: true,
                same_level: l[d as int],
                index: 0,
                direction: Some(direction),
                visited: s1.visited.insert(l[d as int][0]),
            });
            return Some(first);
        }
        if is_direction(self.direction, direction) || !self.exploring {
            let pool = Self::pool(linked, direction);
            let ghost p = sv(pool@);
            assert(p.skip(0) =~= p);
            let mut j: usize = 0;
            while j < pool.len()
                invariant
                    j <= pool.len(),
                    p == sv(pool@),
                    self.wf(),
                    self@ == s1,
                    is_target,
                    l == links(*linked),
                    base == if old(self)@.direction != Some(direction) {
                        cleared()
                    } else {
                        old(self)@
                    },
                    s1 == (NavView { visited: base.visited.insert(element_id@), ..base }),
                    !(s1.exploring && s1.direction == Some(direction) && s1.same_level.len() > 1),
                    l[dir_index(direction)].len() == 0,
                    s1.direction == Some(direction) || !s1.exploring,
                    first_fresh(fallback_pool(l, direction), s1.visited) == first_fresh(p.skip(j as int), s1.visited),
                decreases pool.len() - j,
            {
                proof {
                    lemma_first_fresh_step(p, s1.visited, j as int);
                }
                if !contains_id(&self.visited, &pool[j]) {
                    assert(p[j as int] == pool@[j as int]@);
                    assert(!s1.visited.contains(p[j as int]));
                    assert(first_fresh(fallback_pool(l, direction), s1.visited) == Some(p[j as int]));
                    let c = pool[j].clone();
                    add_id(&mut self.visited, c.clone());
                    self.exploring = true;
                    self.direction = Some(direction);
                    assert(self@ =~= NavView {
                        exploring: true,
                        direction: Some(direction),
                        visited: s1.visited.insert(p[j as int]),
                        ..s1
                    });
                    return Some(c);
                }
                j = j + 1;
            }
            assert(p.skip(j as int).len() == 0);
        }
        None
    }
}

} // verus!

verus! {

/// A press that falls back never lands on a node already visited in the run, and gives up
/// only when every candidate has been visited.
pub proof fn lemma_first_fresh_unvisited(pool: Seq<Seq<char>>, visited: Set<Seq<char>>)
    ensures
        match first_fresh(pool, visited) {
            Some(c) => pool.contains(c) && !visited.contains(c),
            None => forall|i: int| 0 <= i < pool.len() ==> visited.contains(#[trigger] pool[i]),
        },
    decreases pool.len(),
{
    if pool.len() > 0 {
        lemma_first_fresh_unvisited(pool.drop_first(), visited);
        if visited.contains(pool[0]) {
            match first_fresh(pool.drop_first(), visited) {
                Some(c) => {
                    let k = choose|k: int| 0 <= k < pool.drop_first().len() && pool.drop_first()[k] == c;
                    assert(pool[k + 1] == c);
                },
                None => {
                    assert forall|i: int| 0 <= i < pool.len() implies visited.contains(#[trigger] pool[i]) by {
                        if i > 0 {
                            assert(pool[i] == pool.drop_first()[i - 1]);
                        }
                    }
                },
            }
        } else {
            assert(pool[0] == pool[0]);
        }
    }
}

} // verus!
