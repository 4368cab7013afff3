use hex_grid::hex::Hex;

#[test]
fn new_keeps_both_coordinates() {
    let hex = Hex::new(3, -7);
    assert_eq!(hex.q, 3);
    assert_eq!(hex.r, -7);
    assert_eq!(hex, Hex { q: 3, r: -7 });
}

#[test]
fn distance_of_known_pairs() {
    assert_eq!(Hex::new(0, 0).distance(&Hex::new(2, 1)), 3);
    assert_eq!(Hex::new(0, 0).distance(&Hex::new(1, 1)), 2);
    assert_eq!(Hex::new(0, 0).distance(&Hex::new(3, -3)), 3);
    assert_eq!(Hex::new(0, 0).distance(&Hex::new(-2, -3)), 5);
    assert_eq!(Hex::new(4, -1).distance(&Hex::new(-1, 3)), 5);
    assert_eq!(Hex::new(-5, 9).distance(&Hex::new(-5, 9)), 0);
}

#[test]
fn distance_is_symmetric_and_zero_on_self() {
    for q1 in -4..5 {
        for r1 in -4..5 {
            let a = Hex::new(q1, r1);
            assert_eq!(a.distance(&a), 0);
            for q2 in -4..5 {
                for r2 in -4..5 {
                    let b = Hex::new(q2, r2);
                    assert_eq!(a.distance(&b), b.distance(&a));
                    assert_eq!(a.distance(&b) == 0, a == b);
                }
            }
        }
    }
}

#[test]
fn distance_obeys_triangle_inequality() {
    let cells = [
        Hex::new(0, 0),
        Hex::new(5, -2),
        Hex::new(-3, 4),
        Hex::new(7, 7),
        Hex::new(-6, -1),
        Hex::new(2, -9),
    ];
    for a in cells.iter() {
        for b in cells.iter() {
            for c in cells.iter() {
                assert!(a.distance(c) <= a.distance(b) + b.distance(c));
            }
        }
    }
}

#[test]
fn distance_spans_the_whole_coordinate_range() {
    let low = Hex::new(i32::MIN, 0);
    let high = Hex::new(i32::MAX, 0);
    assert_eq!(low.distance(&high), u32::MAX);
    assert_eq!(Hex::new(0, i32::MIN).distance(&Hex::new(0, i32::MAX)), u32::MAX);
}

#[test]
fn neighbors_come_in_fixed_order() {
    let cells = Hex::new(2, -1).neighbors();
    assert_eq!(
        cells,
        vec![
            Hex::new(3, -1),
            Hex::new(1, -1),
            Hex::new(2, 0),
            Hex::new(2, -2),
            Hex::new(3, -2),
            Hex::new(1, 0),
        ]
    );
}

#[test]
fn neighbors_of_origin() {
    let cells = Hex::new(0, 0).neighbors();
    assert_eq!(
        cells,
        vec![
            Hex::new(1, 0),
            Hex::new(-1, 0),
            Hex::new(0, 1),
            Hex::new(0, -1),
            Hex::new(1, -1),
            Hex::new(-1, 1),
        ]
    );
}

#[test]
fn every_neighbor_is_at_distance_one() {
    for q in -3..4 {
        for r in -3..4 {
            let a = Hex::new(q, r);
            let cells = a.neighbors();
            assert_eq!(cells.len(), 6);
            for n in cells.iter() {
                assert_eq!(a.distance(n), 1);
                assert_eq!(n.distance(&a), 1);
            }
        }
    }
}

#[test]
fn neighbors_next_to_the_coordinate_limits() {
    let a = Hex::new(i32::MAX - 1, i32::MIN + 1);
    let cells = a.neighbors();
    assert_eq!(cells[0], Hex::new(i32::MAX, i32::MIN + 1));
    assert_eq!(cells[3], Hex::new(i32::MAX - 1, i32::MIN));
    assert_eq!(cells[4], Hex::new(i32::MAX, i32::MIN));
}

#[test]
fn cells_at_distance_one_are_the_neighbors() {
    let a = Hex::new(1, 2);
    let around = a.neighbors();
    for q in -2..5 {
        for r in -1..6 {
            let b = Hex::new(q, r);
            assert_eq!(a.distance(&b) == 1, around.contains(&b));
        }
    }
}

#[test]
fn column_rounds_half_the_row_down() {
    assert_eq!(Hex::new(0, 0).col(), 0);
    assert_eq!(Hex::new(0, 1).col(), 0);
    assert_eq!(Hex::new(0, 2).col(), 1);
    assert_eq!(Hex::new(0, 3).col(), 1);
    assert_eq!(Hex::new(5, 7).col(), 8);
    assert_eq!(Hex::new(0, -1).col(), -1);
    assert_eq!(Hex::new(0, -2).col(), -1);
    assert_eq!(Hex::new(0, -3).col(), -2);
    assert_eq!(Hex::new(4, -3).col(), 2);
    assert_eq!(Hex::new(i32::MAX, i32::MAX).col(), 3221225470);
    assert_eq!(Hex::new(i32::MIN, i32::MIN).col(), -3221225472);
}

#[test]
fn row_is_the_second_coordinate() {
    assert_eq!(Hex::new(9, 4).row(), 4);
    assert_eq!(Hex::new(9, -4).row(), -4);
}

#[test]
fn from_offset_inverts_row_and_col() {
    assert_eq!(Hex::from_offset(0, 0), Hex::new(0, 0));
    assert_eq!(Hex::from_offset(1, 2), Hex::new(2, 1));
    assert_eq!(Hex::from_offset(2, 0), Hex::new(-1, 2));
    assert_eq!(Hex::from_offset(5, 3), Hex::new(1, 5));
    for row in 0..12usize {
        for col in 0..12usize {
            let hex = Hex::from_offset(row, col);
            assert_eq!(hex.row(), row as i32);
            assert_eq!(hex.col(), col as i64);
        }
    }
}

#[test]
fn is_at_compares_both_coordinates() {
    assert!(Hex::new(1, 2).is_at(&Hex::new(1, 2)));
    assert!(!Hex::new(1, 2).is_at(&Hex::new(2, 1)));
    assert!(!Hex::new(1, 2).is_at(&Hex::new(1, 3)));
}

#[test]
fn cells_order_by_q_then_r() {
    assert!(Hex::new(0, 5) < Hex::new(1, 0));
    assert!(Hex::new(1, 0) < Hex::new(1, 1));
    assert!(Hex::new(-1, 9) < Hex::new(0, -9));
}
