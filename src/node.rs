use vstd::prelude::*;

verus! {

/// A cell coordinate on the integer plane.
#[derive(Clone, Copy, Debug, PartialEq, Eq, Structural)]
pub struct Node {
    pub x: i32,
    pub y: i32,
}

/// True when the coordinates of `n` leave room for `margin` steps in every
/// direction without leaving the range of `i32`.
pub open spec fn within_margin(n: Node, margin: int) -> bool {
    i32::MIN + margin <= n.x && n.x <= i32::MAX - margin && i32::MIN + margin <= n.y && n.y
        <= i32::MAX - margin
}

/// The cell at offset `(dx, dy)` from `n`.
pub open spec fn shifted(n: Node, dx: int, dy: int) -> Node {
    Node { x: (n.x + dx) as i32, y: (n.y + dy) as i32 }
}

/// The Moore neighborhood of `n`: the 3x3 block around it, column by column
/// (x outer, y inner), with the center left out.
pub open spec fn neighbors_of(n: Node) -> Seq<Node> {
    seq![
        shifted(n, -1, -1),
        shifted(n, -1, 0),
        shifted(n, -1, 1),
        shifted(n, 0, -1),
        shifted(n, 0, 1),
        shifted(n, 1, -1),
        shifted(n, 1, 0),
        shifted(n, 1, 1),
    ]
}

/// `m` touches `n` horizontally, vertically or diagonally, and is not `n`.
pub open spec fn is_adjacent(n: Node, m: Node) -> bool {
    m != n && -1 <= m.x - n.x <= 1 && -1 <= m.y - n.y <= 1
}

/// The neighborhood of a cell has exactly eight cells, all distinct, none of
/// them the cell itself, and they are exactly the cells adjacent to it.
pub proof fn lemma_neighbors_of(c: Node)
    requires
        within_margin(c, 1),
    ensures
        neighbors_of(c).len() == 8,
        neighbors_of(c).no_duplicates(),
        !neighbors_of(c).contains(c),
        forall|m: Node| neighbors_of(c).contains(m) <==> is_adjacent(c, m),
{
    let s = neighbors_of(c);
    assert forall|m: Node| is_adjacent(c, m) implies s.contains(m) by {
        let dx = m.x - c.x;
        let dy = m.y - c.y;
        let k = 3 * (dx + 1) + (dy + 1);
        let i = if k < 4 { k } else { k - 1 };
        assert(s[i] == m);
    }
}

impl Node {
    /// The eight neighbors of this cell, in the order of `neighbors_of`.
    pub fn get_neighbors(&self) -> (r: Vec<Node>)
        requires
            within_margin(*self, 1),
        ensures
            r@ == neighbors_of(*self),
    {
        let mut neighbors: Vec<Node> = Vec::new();
        let mut i: i32 = 0;
        while i < 3
            invariant
                within_margin(*self, 1),
                0 <= i <= 3,
                neighbors@.len() == 3 * i,
                forall|a: int, b: int|
                    0 <= a < i && 0 <= b < 3 ==> #[trigger] neighbors@[3 * a + b] == shifted(
                        *self,
                        a - 1,
                        b - 1,
                    ),
            decreases 3 - i,
        {
            let mut j: i32 = 0;
            while j < 3
                invariant
                    within_margin(*self, 1),
                    0 <= i < 3,
                    0 <= j <= 3,
                    neighbors@.len() == 3 * i + j,
                    forall|a: int, b: int|
                        0 <= a < i && 0 <= b < 3 ==> #[trigger] neighbors@[3 * a + b] == shifted(
                            *self,
                            a - 1,
                            b - 1,
                        ),
                    forall|b: int|
                        0 <= b < j ==> #[trigger] neighbors@[3 * i + b] == shifted(
                            *self,
                            i - 1,
                            b - 1,
                        ),
                decreases 3 - j,
            {
                neighbors.push(Node { x: self.x + (i - 1), y: self.y + (j - 1) });
                j = j + 1;
            }
            i = i + 1;
        }
        let ghost block = neighbors@;
        assert(block[3 * (0 as int) + (0 as int)] == shifted(*self, (0 as int) - 1, (0 as int) - 1));
        assert(block[3 * (0 as int) + (1 as int)] == shifted(*self, (0 as int) - 1, (1 as int) - 1));
        assert(block[3 * (0 as int) + (2 as int)] == shifted(*self, (0 as int) - 1, (2 as int) - 1));
        assert(block[3 * (1 as int) + (0 as int)] == shifted(*self, (1 as int) - 1, (0 as int) - 1));
        assert(block[3 * (1 as int) + (2 as int)] == shifted(*self, (1 as int) - 1, (2 as int) - 1));
        assert(block[3 * (2 as int) + (0 as int)] == shifted(*self, (2 as int) - 1, (0 as int) - 1));
        assert(block[3 * (2 as int) + (1 as int)] == shifted(*self, (2 as int) - 1, (1 as int) - 1));
        assert(block[3 * (2 as int) + (2 as int)] == shifted(*self, (2 as int) - 1, (2 as int) - 1));
        neighbors.remove(4);
        assert(neighbors@ =~= neighbors_of(*self));
        neighbors
    }
}

} // verus!
