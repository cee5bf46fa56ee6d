use game_of_life::node::Node;

#[test]
fn get_neighbors_amount() {
    let node = Node { x: 0, y: 0 };
    let neighbors = node.get_neighbors();
    assert_eq!(neighbors.len(), 8);
}

#[test]
fn get_neighbors_for_node_0_0_contains_neighbors() {
    let node = Node { x: 0, y: 0 };
    let neighbors = node.get_neighbors();
    assert!(neighbors.contains(&Node { x: -1, y: -1 }));
    assert!(neighbors.contains(&Node { x: -1, y: 0 }));
    assert!(neighbors.contains(&Node { x: -1, y: 1 }));
    assert!(neighbors.contains(&Node { x: 0, y: -1 }));
    assert!(!neighbors.contains(&Node { x: 0, y: 0 }));
    assert!(neighbors.contains(&Node { x: 0, y: 1 }));
    assert!(neighbors.contains(&Node { x: 1, y: -1 }));
    assert!(neighbors.contains(&Node { x: 1, y: 0 }));
    assert!(neighbors.contains(&Node { x: 1, y: 1 }));
}

#[test]
fn get_neighbors_for_node_1_1_contains_neighbors() {
    let node = Node { x: 1, y: 1 };
    let neighbors = node.get_neighbors();
    assert!(neighbors.contains(&Node { x: 0, y: 0 }));
    assert!(neighbors.contains(&Node { x: 0, y: 1 }));
    assert!(neighbors.contains(&Node { x: 0, y: 2 }));
    assert!(neighbors.contains(&Node { x: 1, y: 0 }));
    assert!(!neighbors.contains(&Node { x: 1, y: 1 }));
    assert!(neighbors.contains(&Node { x: 1, y: 2 }));
    assert!(neighbors.contains(&Node { x: 2, y: 0 }));
    assert!(neighbors.contains(&Node { x: 2, y: 1 }));
    assert!(neighbors.contains(&Node { x: 2, y: 2 }));
}

#[test]
fn get_neighbors_for_node_negative_2_2_contains_neighbors() {
    let node = Node { x: -2, y: -2 };
    let neighbors = node.get_neighbors();
    assert!(neighbors.contains(&Node { x: -3, y: -3 }));
    assert!(neighbors.contains(&Node { x: -3, y: -2 }));
    assert!(neighbors.contains(&Node { x: -3, y: -1 }));
    assert!(neighbors.contains(&Node { x: -2, y: -3 }));
    assert!(!neighbors.contains(&Node { x: -2, y: -2 }));
    assert!(neighbors.contains(&Node { x: -3, y: -1 }));
    assert!(neighbors.contains(&Node { x: -1, y: -3 }));
    assert!(neighbors.contains(&Node { x: -1, y: -2 }));
    assert!(neighbors.contains(&Node { x: -1, y: -1 }));
}

#[test]
fn neighbors_come_column_by_column_without_the_center() {
    let neighbors = Node { x: 10, y: -4 }.get_neighbors();
    let expected = vec![
        Node { x: 9, y: -5 },
        Node { x: 9, y: -4 },
        Node { x: 9, y: -3 },
        Node { x: 10, y: -5 },
        Node { x: 10, y: -3 },
        Node { x: 11, y: -5 },
        Node { x: 11, y: -4 },
        Node { x: 11, y: -3 },
    ];
    assert_eq!(neighbors, expected);
}

#[test]
fn neighbors_are_distinct_and_adjacent() {
    let c = Node { x: -7, y: 3 };
    let neighbors = c.get_neighbors();
    for (i, a) in neighbors.iter().enumerate() {
        assert_ne!(*a, c);
        assert!((a.x - c.x).abs() <= 1 && (a.y - c.y).abs() <= 1);
        for b in neighbors.iter().skip(i + 1) {
            assert_ne!(a, b);
        }
    }
}
