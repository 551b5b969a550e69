use pentomino::point::Point;
use pentomino::shape::{
    anchor_shape, canonical_shape, distinct_points, has_shape, move_point, move_shape, same_shape,
    sort_shape, COORD_MAX,
};

fn f_shape() -> Vec<Point> {
    vec![Point { x: 2, y: 3 }, Point { x: 3, y: 3 }, Point { x: 1, y: 4 }, Point { x: 2, y: 4 }, Point { x: 2, y: 5 }]
}

#[test]
fn a_quarter_turn_maps_x_y_to_minus_y_x() {
    let p = Point { x: 2, y: 3 };
    assert_eq!(move_point(p, 0), Point { x: 2, y: 3 });
    assert_eq!(move_point(p, 1), Point { x: -3, y: 2 });
    assert_eq!(move_point(p, 2), Point { x: -2, y: -3 });
    assert_eq!(move_point(p, 3), Point { x: 3, y: -2 });
}

#[test]
fn a_mirror_negates_x_after_the_turns() {
    let p = Point { x: 2, y: 3 };
    assert_eq!(move_point(p, 4), Point { x: -2, y: 3 });
    assert_eq!(move_point(p, 5), Point { x: 3, y: 2 });
    assert_eq!(move_point(p, 6), Point { x: 2, y: -3 });
    assert_eq!(move_point(p, 7), Point { x: -3, y: -2 });
}

#[test]
fn points_at_the_coordinate_limit_can_be_moved() {
    let p = Point { x: COORD_MAX, y: -COORD_MAX };
    assert_eq!(move_point(p, 1), Point { x: COORD_MAX, y: COORD_MAX });
    assert_eq!(move_point(p, 6), Point { x: COORD_MAX, y: COORD_MAX });
}

#[test]
fn move_shape_moves_every_point_in_place() {
    assert_eq!(move_shape(&f_shape(), 1), vec![Point { x: -3, y: 2 }, Point { x: -3, y: 3 }, Point { x: -4, y: 1 }, Point { x: -4, y: 2 }, Point { x: -5, y: 2 }]);
    assert_eq!(move_shape(&f_shape(), 4), vec![Point { x: -2, y: 3 }, Point { x: -3, y: 3 }, Point { x: -1, y: 4 }, Point { x: -2, y: 4 }, Point { x: -2, y: 5 }]);
}

#[test]
fn sort_shape_orders_row_major() {
    let moved = move_shape(&f_shape(), 1);
    assert_eq!(sort_shape(&moved), vec![Point { x: -4, y: 1 }, Point { x: -5, y: 2 }, Point { x: -4, y: 2 }, Point { x: -3, y: 2 }, Point { x: -3, y: 3 }]);
    let none: Vec<Point> = vec![];
    assert_eq!(sort_shape(&none), none);
}

#[test]
fn sort_shape_keeps_repeated_points() {
    let s = vec![Point { x: 1, y: 1 }, Point { x: 0, y: 0 }, Point { x: 1, y: 1 }];
    assert_eq!(
        sort_shape(&s),
        vec![Point { x: 0, y: 0 }, Point { x: 1, y: 1 }, Point { x: 1, y: 1 }]
    );
}

#[test]
fn anchor_shape_moves_the_first_point_to_the_origin() {
    assert_eq!(anchor_shape(&f_shape()), vec![Point { x: 0, y: 0 }, Point { x: 1, y: 0 }, Point { x: -1, y: 1 }, Point { x: 0, y: 1 }, Point { x: 0, y: 2 }]);
    let none: Vec<Point> = vec![];
    assert_eq!(anchor_shape(&none), none);
}

#[test]
fn canonical_forms_of_the_f_piece() {
    assert_eq!(canonical_shape(&f_shape(), 0), vec![Point { x: 0, y: 0 }, Point { x: 1, y: 0 }, Point { x: -1, y: 1 }, Point { x: 0, y: 1 }, Point { x: 0, y: 2 }]);
    assert_eq!(canonical_shape(&f_shape(), 1), vec![Point { x: 0, y: 0 }, Point { x: -1, y: 1 }, Point { x: 0, y: 1 }, Point { x: 1, y: 1 }, Point { x: 1, y: 2 }]);
    assert_eq!(canonical_shape(&f_shape(), 2), vec![Point { x: 0, y: 0 }, Point { x: 0, y: 1 }, Point { x: 1, y: 1 }, Point { x: -1, y: 2 }, Point { x: 0, y: 2 }]);
    assert_eq!(canonical_shape(&f_shape(), 3), vec![Point { x: 0, y: 0 }, Point { x: 0, y: 1 }, Point { x: 1, y: 1 }, Point { x: 2, y: 1 }, Point { x: 1, y: 2 }]);
    assert_eq!(canonical_shape(&f_shape(), 4), vec![Point { x: 0, y: 0 }, Point { x: 1, y: 0 }, Point { x: 1, y: 1 }, Point { x: 2, y: 1 }, Point { x: 1, y: 2 }]);
    assert_eq!(canonical_shape(&f_shape(), 5), vec![Point { x: 0, y: 0 }, Point { x: -1, y: 1 }, Point { x: 0, y: 1 }, Point { x: 1, y: 1 }, Point { x: -1, y: 2 }]);
    assert_eq!(canonical_shape(&f_shape(), 6), vec![Point { x: 0, y: 0 }, Point { x: -1, y: 1 }, Point { x: 0, y: 1 }, Point { x: 0, y: 2 }, Point { x: 1, y: 2 }]);
    assert_eq!(canonical_shape(&f_shape(), 7), vec![Point { x: 0, y: 0 }, Point { x: -2, y: 1 }, Point { x: -1, y: 1 }, Point { x: 0, y: 1 }, Point { x: -1, y: 2 }]);
}

#[test]
fn same_shape_compares_point_by_point() {
    let a = f_shape();
    let mut b = f_shape();
    assert!(same_shape(&a, &b));
    b[4] = Point { x: 2, y: 6 };
    assert!(!same_shape(&a, &b));
    b.pop();
    assert!(!same_shape(&a, &b));
}

#[test]
fn has_shape_finds_an_equal_shape() {
    let figs = vec![canonical_shape(&f_shape(), 0), canonical_shape(&f_shape(), 1)];
    assert!(has_shape(&figs, &canonical_shape(&f_shape(), 1)));
    assert!(!has_shape(&figs, &canonical_shape(&f_shape(), 2)));
    let none: Vec<Vec<Point>> = vec![];
    assert!(!has_shape(&none, &f_shape()));
}

#[test]
fn distinct_points_sees_a_repeated_point() {
    assert!(distinct_points(&f_shape()));
    let twice = vec![Point { x: 0, y: 0 }, Point { x: 1, y: 0 }, Point { x: 0, y: 0 }];
    assert!(!distinct_points(&twice));
    let none: Vec<Point> = vec![];
    assert!(distinct_points(&none));
}
