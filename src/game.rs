use vstd::prelude::*;

use crate::box_boundary::BoxBoundary;
use crate::node::{Node, neighbors_of, within_margin};

verus! {

/// The cells of `ns` that are alive in `s`, in the order of `ns`.
pub open spec fn live_among(s: Set<Node>, ns: Seq<Node>) -> Seq<Node> {
    ns.filter(|m: Node| s.contains(m))
}

/// The live neighbors of `c` in the live set `s`.
pub open spec fn live_neighbors_of(s: Set<Node>, c: Node) -> Seq<Node> {
    live_among(s, neighbors_of(c))
}

/// A live cell with this many live neighbors stays alive.
pub open spec fn survives(count: nat) -> bool {
    2 <= count <= 3
}

/// A dead cell with this many live neighbors comes alive.
pub open spec fn born(count: nat) -> bool {
    count == 3
}

/// Whether `c` is alive in the generation that follows the live set `s`.
pub open spec fn alive_next(s: Set<Node>, c: Node) -> bool {
    let count = live_neighbors_of(s, c).len();
    if s.contains(c) {
        survives(count)
    } else {
        born(count)
    }
}

/// The live set `s` with the state of `c` flipped.
pub open spec fn toggled(s: Set<Node>, c: Node) -> Set<Node> {
    if s.contains(c) {
        s.remove(c)
    } else {
        s.insert(c)
    }
}

/// `b` is the smallest box holding every cell of `s`, widened by one cell on
/// each side: every cell lies strictly inside `b`, and each side of `b` lies
/// right next to some cell.
pub open spec fn is_padded_hull(s: Seq<Node>, b: BoxBoundary) -> bool {
    &&& forall|i: int|
        0 <= i < s.len() ==> b.lower.x < #[trigger] s[i].x < b.upper.x && b.lower.y < s[i].y
            < b.upper.y
    &&& exists|i: int| 0 <= i < s.len() && #[trigger] s[i].x == b.lower.x + 1
    &&& exists|i: int| 0 <= i < s.len() && #[trigger] s[i].x == b.upper.x - 1
    &&& exists|i: int| 0 <= i < s.len() && #[trigger] s[i].y == b.lower.y + 1
    &&& exists|i: int| 0 <= i < s.len() && #[trigger] s[i].y == b.upper.y - 1
}

/// With no live cell among `ns`, none of them is counted.
proof fn lemma_none_live(s: Set<Node>, ns: Seq<Node>)
    requires
        forall|i: int| 0 <= i < ns.len() ==> !s.contains(#[trigger] ns[i]),
    ensures
        live_among(s, ns).len() == 0,
    decreases ns.len(),
{
    reveal(Seq::filter);
    if ns.len() > 0 {
        let rest = ns.drop_last();
        assert forall|i: int| 0 <= i < rest.len() implies !s.contains(#[trigger] rest[i]) by {
            assert(rest[i] == ns[i]);
        }
        lemma_none_live(s, rest);
    }
}

/// Nothing comes alive where nothing was alive before.
pub proof fn lemma_empty_stays_empty(c: Node)
    ensures
        !alive_next(Set::empty(), c),
{
    lemma_none_live(Set::empty(), neighbors_of(c));
}

/// A cell more than one step outside the box that holds every live cell is
/// dead in the next generation.
proof fn lemma_outside_dead(s: Seq<Node>, b: BoxBoundary, c: Node)
    requires
        forall|i: int|
            0 <= i < s.len() ==> b.lower.x < #[trigger] s[i].x < b.upper.x && b.lower.y < s[i].y
                < b.upper.y,
        within_margin(c, 1),
        !(b.lower.x <= c.x <= b.upper.x && b.lower.y <= c.y <= b.upper.y),
    ensures
        !alive_next(s.to_set(), c),
{
    let ns = neighbors_of(c);
    assert forall|i: int| 0 <= i < ns.len() implies !s.to_set().contains(#[trigger] ns[i]) by {
        if s.contains(ns[i]) {
            let k = choose|k: int| 0 <= k < s.len() && s[k] == ns[i];
            assert(b.lower.x < s[k].x < b.upper.x);
        }
    }
    if s.contains(c) {
        let k = choose|k: int| 0 <= k < s.len() && s[k] == c;
        assert(b.lower.x < s[k].x < b.upper.x);
    }
    lemma_none_live(s.to_set(), ns);
}

/// Flipping the same cell twice leaves the live set as it was.
pub proof fn lemma_toggle_involution(s: Set<Node>, c: Node)
    ensures
        toggled(toggled(s, c), c) == s,
{
    assert(toggled(toggled(s, c), c) =~= s);
}

/// Appending a cell that is not there keeps a list free of repeats.
proof fn lemma_push_fresh(s: Seq<Node>, c: Node)
    requires
        s.no_duplicates(),
        !s.contains(c),
    ensures
        s.push(c).no_duplicates(),
{
    let t = s.push(c);
    assert forall|i: int, j: int| 0 <= i < t.len() && 0 <= j < t.len() && i != j implies t[i]
        != t[j] by {
        if i < s.len() && j < s.len() {
            assert(t[i] == s[i] && t[j] == s[j]);
        } else if i < s.len() {
            assert(t[i] == s[i]);
        } else {
            assert(t[j] == s[j]);
        }
    }
}

/// The live set of Conway's Game of Life.
pub struct Game {
    pub live_nodes: Vec<Node>,
}

impl View for Game {
    type V = Set<Node>;

    open spec fn view(&self) -> Set<Node> {
        self.live_nodes@.to_set()
    }
}

/// Whether `n` occurs in `nodes`.
fn contains_node(nodes: &Vec<Node>, n: &Node) -> (r: bool)
    ensures
        r == nodes@.contains(*n),
{
    let mut i: usize = 0;
    while i < nodes.len()
        invariant
            0 <= i <= nodes@.len(),
            forall|k: int| 0 <= k < i ==> nodes@[k] != *n,
        decreases nodes@.len() - i,
    {
        if nodes[i].x == n.x && nodes[i].y == n.y {
            return true;
        }
        i = i + 1;
    }
    false
}

impl Game {
    /// No cell appears twice in the live list.
    pub open spec fn wf(&self) -> bool {
        self.live_nodes@.no_duplicates()
    }

    /// A game with nothing alive.
    pub fn new() -> (r: Self)
        ensures
            r.wf(),
            r@ == Set::<Node>::empty(),
    {
        let r = Game { live_nodes: Vec::new() };
        assert(r@ =~= Set::<Node>::empty());
        r
    }

    /// Whether every live cell is at least two steps away from the edges of
    /// the `i32` range, as `evolve` needs.
    pub fn far_from_edges(&self) -> (r: bool)
        ensures
            r == forall|i: int|
                0 <= i < self.live_nodes@.len() ==> within_margin(
                    #[trigger] self.live_nodes@[i],
                    2,
                ),
    {
        let mut i: usize = 0;
        while i < self.live_nodes.len()
            invariant
                0 <= i <= self.live_nodes@.len(),
                forall|k: int| 0 <= k < i ==> within_margin(#[trigger] self.live_nodes@[k], 2),
            decreases self.live_nodes@.len() - i,
        {
            let n = self.live_nodes[i];
            if n.x < i32::MIN + 2 || n.x > i32::MAX - 2 || n.y < i32::MIN + 2 || n.y > i32::MAX - 2 {
                return false;
            }
            i = i + 1;
        }
        true
    }

    /// The box around the live cells, widened by one cell on each side; the
    /// single-cell box at the origin when nothing is alive.
    pub fn get_boundary(&self) -> (r: BoxBoundary)
        requires
            forall|i: int|
                0 <= i < self.live_nodes@.len() ==> within_margin(#[trigger] self.live_nodes@[i], 1),
        ensures
            self.live_nodes@.len() == 0 ==> r == BoxBoundary::new_spec(),
            self.live_nodes@.len() > 0 ==> is_padded_hull(self.live_nodes@, r),
    {
        let mut box_boundary = BoxBoundary::new();
        if self.live_nodes.len() == 0 {
            return box_boundary;
        }
        let ghost s = self.live_nodes@;
        let first = self.live_nodes[0];
        let mut x_min = first.x;
        let mut x_max = first.x;
        let mut y_min = first.y;
        let mut y_max = first.y;
        let mut i: usize = 1;
        while i < self.live_nodes.len()
            invariant
                s == self.live_nodes@,
                forall|k: int| 0 <= k < s.len() ==> within_margin(#[trigger] s[k], 1),
                1 <= i <= s.len(),
                forall|k: int|
                    0 <= k < i ==> x_min <= #[trigger] s[k].x <= x_max && y_min <= s[k].y <= y_max,
                exists|k: int| 0 <= k < i && #[trigger] s[k].x == x_min,
                exists|k: int| 0 <= k < i && #[trigger] s[k].x == x_max,
                exists|k: int| 0 <= k < i && #[trigger] s[k].y == y_min,
                exists|k: int| 0 <= k < i && #[trigger] s[k].y == y_max,
            decreases s.len() - i,
        {
            let n = self.live_nodes[i];
            if n.x < x_min {
                x_min = n.x;
            }
            if n.x > x_max {
                x_max = n.x;
            }
            if n.y < y_min {
                y_min = n.y;
            }
            if n.y > y_max {
                y_max = n.y;
            }
            i = i + 1;
        }
        box_boundary.lower.x = x_min - 1;
        box_boundary.upper.x = x_max + 1;
        box_boundary.lower.y = y_min - 1;
        box_boundary.upper.y = y_max + 1;
        box_boundary
    }

    /// Whether the cell `(x, y)` is alive.
    pub fn is_node_alive(&self, x: i32, y: i32) -> (r: bool)
        ensures
            r == self@.contains(Node { x, y }),
    {
        contains_node(&self.live_nodes, &Node { x, y })
    }

    /// The live neighbors of `node`, in the order of `neighbors_of`.
    pub fn get_live_neighbors(&self, node: &Node) -> (r: Vec<Node>)
        requires
            within_margin(*node, 1),
        ensures
            r@ == live_neighbors_of(self@, *node),
    {
        let neighbors = node.get_neighbors();
        let mut live: Vec<Node> = Vec::new();
        let mut i: usize = 0;
        while i < neighbors.len()
            invariant
                neighbors@ == neighbors_of(*node),
                0 <= i <= neighbors@.len(),
                live@ == live_among(self@, neighbors@.take(i as int)),
            decreases neighbors@.len() - i,
        {
            let n = neighbors[i];
            proof {
                assert(neighbors@.take(i + 1).drop_last() =~= neighbors@.take(i as int));
                assert(self@.contains(n) == self.live_nodes@.contains(n));
                reveal(Seq::filter);
            }
            if contains_node(&self.live_nodes, &n) {
                live.push(n);
            }
            i = i + 1;
        }
        assert(neighbors@.take(neighbors@.len() as int) =~= neighbors@);
        live
    }

    /// Whether a live cell with these live neighbors dies.
    pub fn live_node_should_die(&self, live_neighbors: &Vec<Node>) -> (r: bool)
        ensures
            r == !survives(live_neighbors@.len()),
    {
        live_neighbors.len() < 2 || live_neighbors.len() > 3
    }

    /// Whether a dead cell with these live neighbors comes alive.
    pub fn dead_node_should_live(&self, live_neighbors: &Vec<Node>) -> (r: bool)
        ensures
            r == born(live_neighbors@.len()),
    {
        live_neighbors.len() == 3
    }

    /// Whether the cell `(x, y)`, with these live neighbors, is alive in the
    /// next generation.
    fn should_node_live(&self, x: i32, y: i32, live_neighbors: &Vec<Node>) -> (r: bool)
        ensures
            r == (if self@.contains(Node { x, y }) {
                survives(live_neighbors@.len())
            } else {
                born(live_neighbors@.len())
            }),
    {
        (self.is_node_alive(x, y) && !self.live_node_should_die(live_neighbors)) || (
        !self.is_node_alive(x, y) && self.dead_node_should_live(live_neighbors))
    }

    /// Advances the live set by one generation: every cell that the rules
    /// keep or bring alive, computed from the live set as it stood before.
    pub fn evolve(&mut self)
        requires
            forall|i: int|
                0 <= i < old(self).live_nodes@.len() ==> within_margin(
                    #[trigger] old(self).live_nodes@[i],
                    2,
                ),
        ensures
            final(self).wf(),
            forall|c: Node| #[trigger] final(self)@.contains(c) ==> within_margin(c, 1),
            forall|c: Node|
                within_margin(c, 1) ==> (final(self)@.contains(c) <==> #[trigger] alive_next(
                    old(self)@,
                    c,
                )),
    {
        let ghost live = self.live_nodes@;
        let ghost s = self@;
        let mut new_live_nodes: Vec<Node> = Vec::new();
        let boundary = self.get_boundary();
        let lx = boundary.lower.x;
        let ux = boundary.upper.x;
        let ly = boundary.lower.y;
        let uy = boundary.upper.y;
        proof {
            if live.len() == 0 {
                assert(s =~= Set::empty());
            } else {
                assert(lx < live[0].x < ux && ly < live[0].y < uy);
            }
        }
        let mut x = lx;
        while x <= ux
            invariant
                self.live_nodes@ == live,
                s == live.to_set(),
                forall|k: int| 0 <= k < live.len() ==> within_margin(#[trigger] live[k], 2),
                i32::MIN + 1 <= lx <= ux <= i32::MAX - 1,
                i32::MIN + 1 <= ly <= uy <= i32::MAX - 1,
                lx <= x <= ux + 1,
                new_live_nodes@.no_duplicates(),
                forall|c: Node|
                    #[trigger] new_live_nodes@.contains(c) <==> (lx <= c.x < x && ly <= c.y <= uy
                        && alive_next(s, c)),
            decreases ux + 1 - x,
        {
            let mut y = ly;
            while y <= uy
                invariant
                    self.live_nodes@ == live,
                    s == live.to_set(),
                    i32::MIN + 1 <= lx <= ux <= i32::MAX - 1,
                    i32::MIN + 1 <= ly <= uy <= i32::MAX - 1,
                    lx <= x <= ux,
                    ly <= y <= uy + 1,
                    new_live_nodes@.no_duplicates(),
                    forall|c: Node|
                        #[trigger] new_live_nodes@.contains(c) <==> (((lx <= c.x < x && ly <= c.y
                            <= uy) || (c.x == x && ly <= c.y < y)) && alive_next(s, c)),
                decreases uy + 1 - y,
            {
                let node = Node { x, y };
                let live_neighbors = self.get_live_neighbors(&node);
                let keep = self.should_node_live(x, y, &live_neighbors);
                let ghost before = new_live_nodes@;
                proof {
                    assert(self@ == s);
                    assert(keep == alive_next(s, node));
                }
                if keep {
                    proof {
                        lemma_push_fresh(new_live_nodes@, node);
                    }
                    new_live_nodes.push(node);
                    assert(new_live_nodes@[before.len() as int] == node);
                }
                assert forall|c: Node| new_live_nodes@.contains(c) <==> before.contains(c) || (keep
                    && c == node) by {
                    if before.contains(c) {
                        let k = choose|k: int| 0 <= k < before.len() && before[k] == c;
                        assert(new_live_nodes@[k] == c);
                    }
                }
                y = y + 1;
                assert forall|c: Node| #[trigger] new_live_nodes@.contains(c) <==> (((lx <= c.x < x
                    && ly <= c.y <= uy) || (c.x == x && ly <= c.y < y)) && alive_next(s, c)) by {
                    assert(new_live_nodes@.contains(c) <==> before.contains(c) || (keep && c
                        == node));
                    assert(before.contains(c) <==> (((lx <= c.x < x && ly <= c.y <= uy) || (c.x
                        == x && ly <= c.y < y - 1)) && alive_next(s, c)));
                    if c.x == x && c.y == y - 1 {
                        assert(c == node);
                    }
                }
            }
            x = x + 1;
        }
        self.live_nodes = new_live_nodes;
        proof {
            assert forall|c: Node| within_margin(c, 1) implies (self@.contains(c)
                <==> alive_next(s, c)) by {
                assert(self@.contains(c) == self.live_nodes@.contains(c));
                if !(lx <= c.x <= ux && ly <= c.y <= uy) {
                    if live.len() == 0 {
                        lemma_empty_stays_empty(c);
                    } else {
                        lemma_outside_dead(live, boundary, c);
                    }
                }
            }
            assert forall|c: Node| #[trigger] self@.contains(c) implies within_margin(c, 1) by {
                assert(self.live_nodes@.contains(c));
            }
        }
    }

    /// Flips the state of `node`: a live cell is removed from the live list,
    /// a dead one is appended to it.
    pub fn toggle(&mut self, node: &Node)
        ensures
            !old(self).live_nodes@.contains(*node) ==> final(self).live_nodes@ == old(
                self,
            ).live_nodes@.push(*node),
            old(self).live_nodes@.contains(*node) ==> exists|i: int|
                0 <= i < old(self).live_nodes@.len() && old(self).live_nodes@[i] == *node && (
                forall|k: int| 0 <= k < i ==> old(self).live_nodes@[k] != *node)
                    && final(self).live_nodes@ == old(self).live_nodes@.remove(i),
            old(self).wf() ==> final(self).wf(),
            old(self).wf() ==> final(self)@ == toggled(old(self)@, *node),
    {
        let ghost s = self.live_nodes@;
        let mut i: usize = 0;
        while i < self.live_nodes.len()
            invariant
                self.live_nodes@ == s,
                old(self).live_nodes@ == s,
                0 <= i <= s.len(),
                forall|k: int| 0 <= k < i ==> s[k] != *node,
            decreases s.len() - i,
        {
            if self.live_nodes[i].x == node.x && self.live_nodes[i].y == node.y {
                self.live_nodes.remove(i);
                proof {
                    let t = self.live_nodes@;
                    assert(s[i as int] == *node);
                    assert(s.contains(*node));
                    if s.no_duplicates() {
                        assert forall|k: int, j: int|
                            0 <= k < t.len() && 0 <= j < t.len() && k != j implies t[k] != t[j] by {
                            let k2 = if k < i { k } else { k + 1 };
                            let j2 = if j < i { j } else { j + 1 };
                            assert(t[k] == s[k2] && t[j] == s[j2]);
                        }
                        assert forall|c: Node| #[trigger] t.contains(c) <==> s.contains(c) && c
                            != *node by {
                            if t.contains(c) {
                                let k = choose|k: int| 0 <= k < t.len() && t[k] == c;
                                let k2 = if k < i { k } else { k + 1 };
                                assert(s[k2] == c && k2 != i);
                            }
                            if s.contains(c) && c != *node {
                                let k = choose|k: int| 0 <= k < s.len() && s[k] == c;
                                let k2 = if k < i { k } else { k - 1 };
                                assert(t[k2] == c);
                            }
                        }
                        assert(self@ =~= toggled(s.to_set(), *node));
                    }
                }
                return;
            }
            i = i + 1;
        }
        proof {
            if s.contains(*node) {
                let k = choose|k: int| 0 <= k < s.len() && s[k] == *node;
                assert(s[k] == *node);
            }
        }
        self.live_nodes.push(*node);
        proof {
            let t = self.live_nodes@;
            if s.no_duplicates() {
                lemma_push_fresh(s, *node);
            }
            assert forall|c: Node| #[trigger] t.contains(c) <==> s.contains(c) || c == *node by {
                if s.contains(c) {
                    let k = choose|k: int| 0 <= k < s.len() && s[k] == c;
                    assert(t[k] == c);
                }
                if t.contains(c) && c != *node {
                    let k = choose|k: int| 0 <= k < t.len() && t[k] == c;
                    assert(s[k] == c);
                }
                if c == *node {
                    assert(t[s.len() as int] == c);
                }
            }
            assert(self@ =~= toggled(s.to_set(), *node));
        }
    }
}

} // verus!
