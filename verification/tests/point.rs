use fondo::point::Point;

fn point(r: u8, g: u8, b: u8, x: usize, y: usize) -> Point {
    Point { r, g, b, x, y }
}

#[test]
fn points_are_ordered_by_colour_first() {
    assert!(point(0, 9, 9, 9, 9).comes_before(&point(1, 0, 0, 0, 0)));
    assert!(point(1, 0, 9, 9, 9).comes_before(&point(1, 1, 0, 0, 0)));
    assert!(point(1, 1, 0, 9, 9).comes_before(&point(1, 1, 1, 0, 0)));
    assert!(point(1, 1, 1, 0, 9).comes_before(&point(1, 1, 1, 1, 0)));
    assert!(point(1, 1, 1, 1, 0).comes_before(&point(1, 1, 1, 1, 1)));
    assert!(!point(1, 0, 0, 0, 0).comes_before(&point(0, 9, 9, 9, 9)));
    assert!(!point(1, 1, 1, 1, 1).comes_before(&point(1, 1, 1, 1, 1)));
}

#[test]
fn comes_before_agrees_with_the_derived_order() {
    let points = [
        point(0, 0, 0, 0, 0),
        point(0, 0, 0, 0, 1),
        point(0, 0, 0, 1, 0),
        point(0, 0, 1, 0, 0),
        point(0, 1, 0, 0, 0),
        point(1, 0, 0, 0, 0),
        point(255, 255, 255, usize::MAX, usize::MAX),
    ];
    for a in points.iter() {
        for b in points.iter() {
            assert_eq!(a.comes_before(b), a < b);
            assert_eq!(a.comes_before(b), a.to_key() < b.to_key());
        }
    }
}

#[test]
fn key_and_point_convert_both_ways() {
    let p = point(1, 2, 3, 4, 5);
    assert_eq!(p.to_key(), (1, 2, 3, 4, 5));
    assert_eq!(Point::from_key((1, 2, 3, 4, 5)), p);
    assert_eq!(Point::from_key(p.to_key()), p);
}
