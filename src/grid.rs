use vstd::arithmetic::div_mod::{lemma_fundamental_div_mod, lemma_fundamental_div_mod_converse};
use vstd::prelude::*;

use crate::node::Node;

verus! {

/// The slot of `n` in the row-major layout of the square of the given
/// radius (y outer, x inner, both starting at `-radius`).
pub open spec fn index_of(radius: int, n: Node) -> int {
    (n.y + radius) * (2 * radius) + (n.x + radius)
}

/// The cell in slot `i` of the row-major layout of the square of the given
/// radius.
pub open spec fn node_at(radius: int, i: int) -> Node {
    Node { x: (i % (2 * radius) - radius) as i32, y: (i / (2 * radius) - radius) as i32 }
}

/// `n` lies in the square `[-radius, radius)` on both axes.
pub open spec fn in_square(radius: int, n: Node) -> bool {
    -radius <= n.x < radius && -radius <= n.y < radius
}

/// Every cell of the square of the given radius, slot by slot.
pub open spec fn cells_of(radius: int) -> Seq<Node> {
    Seq::new((4 * radius * radius) as nat, |i: int| node_at(radius, i))
}

/// The radii for which the square's slots can be counted in an `i32`.
pub open spec fn valid_radius(radius: int) -> bool {
    0 < radius && 4 * radius * radius <= i32::MAX
}

/// Each slot of the square holds a cell of the square, and that cell's slot
/// is the slot it came from.
pub proof fn lemma_index_round_trip(radius: int, i: int)
    requires
        valid_radius(radius),
        0 <= i < 4 * radius * radius,
    ensures
        in_square(radius, node_at(radius, i)),
        index_of(radius, node_at(radius, i)) == i,
{
    let d = 2 * radius;
    lemma_fundamental_div_mod(i, d);
    assert(0 <= i % d < d);
    assert(0 <= i / d < d) by {
        assert(i / d * d <= i < d * d) by (nonlinear_arith)
            requires
                i == d * (i / d) + (i % d),
                0 <= i % d < d,
                i < 4 * radius * radius,
                d == 2 * radius,
        ;
        if i / d >= d {
            assert(i / d * d >= d * d) by (nonlinear_arith)
                requires
                    i / d >= d,
                    d > 0,
            ;
        }
        if i / d < 0 {
            assert(i / d * d < 0) by (nonlinear_arith)
                requires
                    i / d < 0,
                    d > 0,
            ;
        }
    }
    assert(radius <= i32::MAX) by (nonlinear_arith)
        requires
            0 < radius,
            4 * radius * radius <= i32::MAX,
    ;
    assert(index_of(radius, node_at(radius, i)) == (i / d) * d + i % d) by (nonlinear_arith)
        requires
            node_at(radius, i).x == i % d - radius,
            node_at(radius, i).y == i / d - radius,
            d == 2 * radius,
    ;
}

/// Each cell of the square has a slot, and that slot holds the cell.
pub proof fn lemma_node_round_trip(radius: int, n: Node)
    requires
        valid_radius(radius),
        in_square(radius, n),
    ensures
        0 <= index_of(radius, n) < 4 * radius * radius,
        node_at(radius, index_of(radius, n)) == n,
{
    let d = 2 * radius;
    let i = index_of(radius, n);
    assert(0 <= i < 4 * radius * radius) by (nonlinear_arith)
        requires
            i == (n.y + radius) * d + (n.x + radius),
            0 <= n.y + radius < d,
            0 <= n.x + radius < d,
            d == 2 * radius,
    {
        assert((n.y + radius) * d <= (d - 1) * d);
    }
    lemma_fundamental_div_mod_converse(i, d, n.y + radius, n.x + radius);
}

/// A fixed square of cells around the origin, `[-radius, radius)` on both
/// axes, laid out slot by slot for display.
pub struct Grid {
    pub radius: i32,
    pub cell_size: i32,
    pub cells: Vec<Node>,
}

impl Grid {
    /// The radius is valid, the cell size positive, and the stored cells are
    /// exactly the square's cells in slot order.
    pub open spec fn wf(&self) -> bool {
        &&& valid_radius(self.radius as int)
        &&& self.cell_size > 0
        &&& self.cells@ == cells_of(self.radius as int)
    }

    /// Lays out the square of the given radius.
    pub fn new(radius: i32, cell_size: i32) -> (r: Self)
        requires
            valid_radius(radius as int),
            cell_size > 0,
        ensures
            r.wf(),
            r.radius == radius,
            r.cell_size == cell_size,
    {
        let ghost rad = radius as int;
        let ghost d = 2 * rad;
        let mut cells: Vec<Node> = Vec::new();
        let mut y: i32 = -radius;
        assert((y + rad) * d == 0) by (nonlinear_arith)
            requires
                y + rad == 0,
        ;
        while y < radius
            invariant
                valid_radius(rad),
                rad == radius,
                d == 2 * rad,
                -rad <= y <= rad,
                cells@.len() == (y + rad) * d,
                forall|k: int| 0 <= k < cells@.len() ==> #[trigger] cells@[k] == node_at(rad, k),
            decreases radius - y,
        {
            let mut x: i32 = -radius;
            while x < radius
                invariant
                    valid_radius(rad),
                    rad == radius,
                    d == 2 * rad,
                    -rad <= y < rad,
                    -rad <= x <= rad,
                    cells@.len() == (y + rad) * d + (x + rad),
                    forall|k: int|
                        0 <= k < cells@.len() ==> #[trigger] cells@[k] == node_at(rad, k),
                decreases radius - x,
            {
                proof {
                    lemma_node_round_trip(rad, Node { x, y });
                }
                cells.push(Node { x, y });
                x = x + 1;
            }
            assert((y + rad) * d + d == (y + 1 + rad) * d) by (nonlinear_arith);
            y = y + 1;
        }
        assert(cells@ =~= cells_of(rad)) by {
            assert((rad + rad) * d == 4 * rad * rad) by (nonlinear_arith)
                requires
                    d == 2 * rad,
            ;
        }
        Grid { radius, cell_size, cells }
    }

    /// The cell in slot `index`.
    pub fn get_node(&self, index: usize) -> (r: &Node)
        requires
            self.wf(),
            index < 4 * self.radius * self.radius,
        ensures
            *r == node_at(self.radius as int, index as int),
    {
        &self.cells[index]
    }

    /// The slot of `node`, which must lie in the square.
    pub fn get_index(&self, node: &Node) -> (r: usize)
        requires
            self.wf(),
            in_square(self.radius as int, *node),
        ensures
            r == index_of(self.radius as int, *node),
    {
        proof {
            let rad = self.radius as int;
            lemma_node_round_trip(rad, *node);
            assert(2 * rad <= 4 * rad * rad) by (nonlinear_arith)
                requires
                    rad >= 1,
            ;
            assert(0 <= (node.y + rad) * (2 * rad)) by (nonlinear_arith)
                requires
                    node.y + rad >= 0,
                    rad >= 1,
            ;
        }
        (((node.y + self.radius) * (self.radius * 2)) + (node.x + self.radius)) as usize
    }

    /// Whether `node` lies in the square, so that it has a slot.
    pub fn holds(&self, node: &Node) -> (r: bool)
        requires
            self.wf(),
        ensures
            r == in_square(self.radius as int, *node),
    {
        -self.radius <= node.x && node.x < self.radius && -self.radius <= node.y && node.y
            < self.radius
    }

    /// Every cell of the square, slot by slot.
    pub fn get_cells(&self) -> (r: &Vec<Node>)
        requires
            self.wf(),
        ensures
            r@ == cells_of(self.radius as int),
    {
        &self.cells
    }
}

} // verus!
