use pentomino::point::Point;

#[test]
fn points_are_equal_when_both_coordinates_are() {
    assert_eq!(Point { x: 1, y: 2 }, Point { x: 1, y: 2 });
    assert_ne!(Point { x: 1, y: 2 }, Point { x: 2, y: 1 });
}

#[test]
fn points_are_ordered_by_row_then_column() {
    let a = Point { x: 5, y: 0 };
    let b = Point { x: 0, y: 1 };
    let c = Point { x: 1, y: 1 };
    assert!(a < b);
    assert!(b < c);
    assert!(a < c);
    assert!(!(b < a));
    assert!(c > b);
    assert!(a <= a);
    assert!(a.is_before(&b));
    assert!(!b.is_before(&a));
    assert!(!a.is_before(&a));
}

#[test]
fn partial_cmp_is_total_on_points() {
    let a = Point { x: -3, y: 7 };
    let b = Point { x: 4, y: 7 };
    assert!(matches!(a.partial_cmp(&b), Some(core::cmp::Ordering::Less)));
    assert!(matches!(b.partial_cmp(&a), Some(core::cmp::Ordering::Greater)));
    assert!(matches!(a.partial_cmp(&a), Some(core::cmp::Ordering::Equal)));
}
