use dungeon_core::point::Point;
use dungeon_core::rect::IRect;

fn rect1234() -> IRect {
    IRect { x1: 1, y1: 2, x2: 3, y2: 4 }
}

fn rect0179() -> IRect {
    IRect { x1: 0, y1: 1, x2: 7, y2: 9 }
}

#[test]
fn rect_test_new() {
    assert_eq!(IRect::new(1, 3, 2, 4), rect1234());
    assert_eq!(IRect::new(3, 1, 2, 4), rect1234());
    assert_eq!(IRect::new(1, 3, 4, 2), rect1234());
    assert_eq!(IRect::new(3, 1, 4, 2), rect1234());
}

#[test]
fn rect_test_upper_left() {
    let upper_left = Point::new(1, 2);
    assert_eq!(IRect::new(1, 3, 2, 4).upper_left(), upper_left);
    assert_eq!(IRect::new(3, 1, 2, 4).upper_left(), upper_left);
    assert_eq!(IRect::new(1, 3, 4, 2).upper_left(), upper_left);
    assert_eq!(IRect::new(3, 1, 4, 2).upper_left(), upper_left);
}

#[test]
fn rect_test_in_bounds() {
    assert!(rect0179().in_bounds(Point::new(0, 1)));
    assert!(rect0179().in_bounds(Point::new(6, 8)));
    assert!(!rect0179().in_bounds(Point::new(0, 0)));
    assert!(!rect0179().in_bounds(Point::new(-1, 1)));
    assert!(!rect0179().in_bounds(Point::new(7, 8)));
    assert!(!rect0179().in_bounds(Point::new(6, 9)));
}

#[test]
fn rect_test_move_to_point() {
    assert_eq!(
        rect0179().moved_to_point(Point::new(2, 3)),
        IRect::new(2, 9, 3, 11)
    );
}

#[test]
fn rect_test_center_at_point() {
    assert_eq!(
        rect0179().centered_at_point(Point::new(5, 6)),
        IRect::new(2, 9, 2, 10)
    );
}

#[test]
fn rect_test_intersection() {
    assert_eq!(
        rect1234().intersection(&rect0179()),
        Some(IRect::new(1, 3, 2, 4))
    );

    assert_eq!(
        IRect::new(2, 10, 5, 23).intersection(&rect0179()),
        Some(IRect::new(2, 7, 5, 9))
    );

    assert_eq!(IRect::new(21, 22, 23, 24).intersection(&rect0179()), None);
}

#[test]
fn rect_test_index() {
    assert_eq!(rect1234().max_index(), 4);
    assert_eq!(rect0179().max_index(), 56);

    assert_eq!(rect0179().index_to_point(0), Point::new(0, 1));
    assert_eq!(rect0179().index_to_point(6), Point::new(6, 1));
    assert_eq!(rect0179().index_to_point(49), Point::new(0, 8));
    assert_eq!(rect0179().index_to_point(55), Point::new(6, 8));

    let rect = rect0179();
    let mut index = 0;

    for y in 1..9 {
        for x in 0..7 {
            let point = Point::new(x, y);

            assert_eq!(rect.index_to_point(index), point);
            assert_eq!(rect.point_to_index(point), index);
            index += 1;
        }
    }
}

#[test]
fn rect_test_points() {
    {
        let rect = rect1234();
        let mut iter = rect.points();
        let mut points1234: Vec<Point> = Vec::new();
        while let Some(p) = iter.next() {
            points1234.push(p);
        }
        assert_eq!(
            points1234,
            vec![
                Point::new(1, 2),
                Point::new(2, 2),
                Point::new(1, 3),
                Point::new(2, 3),
            ]
        )
    }
    {
        let rect0179 = rect0179();
        let mut iter = rect0179.points();
        let mut points0179: Vec<Point> = Vec::new();
        while let Some(p) = iter.next() {
            points0179.push(p);
        }
        assert_eq!(points0179.len(), 56);
        let mut index = 0;

        for y in 1..9 {
            for x in 0..7 {
                let point = Point::new(x, y);

                assert_eq!(points0179[index], point);
                index += 1;
            }
        }
    }
}
