use dungeon_core::camera::Camera;
use dungeon_core::point::Point;
use dungeon_core::rect::IRect;

#[test]
fn camera_test_new() {
    assert_eq!(
        Camera::new(20, 15, 23, 47),
        Camera {
            view_rect: IRect::new(0, 20, 0, 15),
            world_width: 23,
            world_height: 47
        }
    );
}

#[test]
fn camera_test_center_at_point() {
    let mut camera = Camera::new(20, 15, 100, 100);
    camera.center_on_point(Point::new(30, 25));
    assert_eq!(camera.view_rect, IRect::new(20, 40, 18, 33));
}

#[test]
fn offset() {
    let mut camera = Camera::new(20, 15, 100, 100);
    camera.center_on_point(Point::new(30, 25));
    let point = Point::new(21, 20);

    assert_eq!(camera.world_point_to_screen_point(point), Point::new(1, 2));
}
