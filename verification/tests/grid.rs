use fondo::grid::{Canvas, Mask};

#[test]
fn new_mask_marks_nothing() {
    let mask = Mask::new(3, 2);
    for y in 0..2 {
        for x in 0..3 {
            assert!(!mask.is_marked(x, y));
        }
    }
}

#[test]
fn mark_marks_one_cell() {
    let mut mask = Mask::new(3, 2);
    mask.mark(2, 1);
    for y in 0..2 {
        for x in 0..3 {
            assert_eq!(mask.is_marked(x, y), x == 2 && y == 1);
        }
    }
    mask.mark(2, 1);
    mask.mark(0, 1);
    assert!(mask.is_marked(2, 1));
    assert!(mask.is_marked(0, 1));
    assert!(!mask.is_marked(2, 0));
    assert!(!mask.is_marked(1, 1));
}

#[test]
fn cells_outside_the_mask_are_not_marked() {
    let mut mask = Mask::new(3, 2);
    mask.mark(0, 0);
    mask.mark(2, 1);
    assert!(!mask.is_marked(3, 0));
    assert!(!mask.is_marked(0, 2));
    assert!(!mask.is_marked(3, 1));
    assert!(!mask.is_marked(usize::MAX, usize::MAX));
    let empty = Mask::new(0, 5);
    assert!(!empty.is_marked(0, 0));
}

#[test]
fn new_canvas_is_black() {
    let canvas = Canvas::new(2, 3);
    assert_eq!(canvas.width(), 2);
    assert_eq!(canvas.height(), 3);
    for y in 0..3 {
        for x in 0..2 {
            assert_eq!(canvas.get(x, y), (0, 0, 0));
        }
    }
    assert_eq!(canvas.into_pixels(), vec![(0, 0, 0); 6]);
}

#[test]
fn put_writes_one_cell_row_after_row() {
    let mut canvas = Canvas::new(3, 2);
    canvas.put(1, 0, (1, 2, 3));
    canvas.put(0, 1, (4, 5, 6));
    canvas.put(2, 1, (7, 8, 9));
    assert_eq!(canvas.get(1, 0), (1, 2, 3));
    assert_eq!(canvas.get(0, 1), (4, 5, 6));
    assert_eq!(canvas.get(2, 1), (7, 8, 9));
    assert_eq!(canvas.get(0, 0), (0, 0, 0));
    assert_eq!(
        canvas.into_pixels(),
        vec![(0, 0, 0), (1, 2, 3), (0, 0, 0), (4, 5, 6), (0, 0, 0), (7, 8, 9)]
    );
}

#[test]
fn the_last_write_to_a_cell_stays() {
    let mut canvas = Canvas::new(2, 2);
    canvas.put(1, 1, (1, 1, 1));
    canvas.put(1, 1, (2, 2, 2));
    assert_eq!(canvas.get(1, 1), (2, 2, 2));
}
