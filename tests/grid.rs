use game_of_life::grid::Grid;
use game_of_life::node::Node;

#[test]
fn can_index_a_cartesian_index() {
    let radius = 8;
    let grid = Grid::new(radius, 10);
    assert_eq!(grid.get_cells().len() as i32, (radius * 2) * (radius * 2));
}

#[test]
fn returns_zero_node_index() {
    let radius = 8;
    let grid = Grid::new(radius, 10);
    assert_eq!(grid.get_node(0), &Node { x: -8, y: -8 });
    assert_eq!(grid.get_index(&Node { x: -8, y: -8 }), 0);
    assert_eq!(grid.get_node(1), &Node { x: -7, y: -8 });
    assert_eq!(grid.get_index(&Node { x: -7, y: -8 }), 1);
    assert_eq!(grid.get_node(2), &Node { x: -6, y: -8 });
    assert_eq!(grid.get_index(&Node { x: -6, y: -8 }), 2);
    assert_eq!(grid.get_node(16), &Node { x: -8, y: -7 });
    assert_eq!(grid.get_index(&Node { x: -8, y: -7 }), 16);
    assert_eq!(grid.get_node(grid.get_cells().len() - 1), &Node { x: 7, y: 7 });
    assert_eq!(grid.get_index(&Node { x: 7, y: 7 }), grid.get_cells().len() - 1);
}

#[test]
fn every_slot_round_trips() {
    let grid = Grid::new(5, 3);
    let n = grid.get_cells().len();
    assert_eq!(n, 100);
    for i in 0..n {
        assert_eq!(grid.get_index(grid.get_node(i)), i);
    }
}

#[test]
fn every_cell_of_the_square_round_trips() {
    let grid = Grid::new(4, 10);
    for y in -4..4 {
        for x in -4..4 {
            let node = Node { x, y };
            assert_eq!(grid.get_node(grid.get_index(&node)), &node);
        }
    }
}

#[test]
fn slot_formula_on_a_middle_cell() {
    let grid = Grid::new(3, 1);
    // (y + r) * 2r + (x + r) = (1 + 3) * 6 + (-2 + 3)
    assert_eq!(grid.get_index(&Node { x: -2, y: 1 }), 25);
    assert_eq!(grid.get_node(25), &Node { x: -2, y: 1 });
}

#[test]
fn radius_one_grid_has_four_cells_in_row_major_order() {
    let grid = Grid::new(1, 7);
    assert_eq!(grid.radius, 1);
    assert_eq!(grid.cell_size, 7);
    let expected = vec![
        Node { x: -1, y: -1 },
        Node { x: 0, y: -1 },
        Node { x: -1, y: 0 },
        Node { x: 0, y: 0 },
    ];
    assert_eq!(grid.get_cells(), &expected);
}

#[test]
fn holds_only_the_square() {
    let grid = Grid::new(2, 10);
    assert!(grid.holds(&Node { x: -2, y: -2 }));
    assert!(grid.holds(&Node { x: 1, y: 1 }));
    assert!(!grid.holds(&Node { x: 2, y: 0 }));
    assert!(!grid.holds(&Node { x: 0, y: -3 }));
}
