use rectutils::{Matrix3, OptionRect, Rect, Vec2};

#[test]
fn intersects1() {
    let rect1 = Rect::new(-1, -2, 4, 6);
    let rect2 = Rect::new(2, 3, 2, 2);
    assert!(rect1.intersects(rect2));
}

#[test]
fn intersects2() {
    let rect1 = Rect::new(0, 0, 4, 6);
    let rect2 = Rect::new(-1, -2, 2, 3);
    assert!(rect1.intersects(rect2));
}

#[test]
fn not_intersects1() {
    let rect1 = Rect::new(-1, -2, 3, 4);
    let rect2 = Rect::new(3, 3, 2, 2);
    assert!(!rect1.intersects(rect2));
}

#[test]
fn not_intersects2() {
    let rect1 = Rect::new(-1, -2, 3, 4);
    let rect2 = Rect::new(2, 1, 2, 2);
    assert!(!rect1.intersects(rect2));
}

#[test]
fn touching_rects_do_not_intersect() {
    let rect1 = Rect::new(0, 0, 10, 10);
    assert!(!rect1.intersects(Rect::new(10, 0, 5, 5)));
    assert!(!rect1.intersects(Rect::new(0, 10, 5, 5)));
    assert!(rect1.intersects(Rect::new(9, 9, 5, 5)));
}

#[test]
fn negative_size_rect_inverts_tests() {
    let rect = Rect::new(10, 10, -5, -5);
    // The span from 5 to 10 is not inside: the far edge lies before the position.
    assert!(!rect.intersects(Rect::new(6, 6, 2, 2)));
    assert!(!rect.contains(Vec2::new(7, 7)));
}

#[test]
fn from_points1() {
    let rect = Rect::from_points(Vec2::new(-1, -2), Vec2::new(2, 1));
    assert_eq!(rect, Rect::new(-1, -2, 3, 3));
}

#[test]
fn from_points2() {
    let rect = Rect::from_points(Vec2::new(-1, 1), Vec2::new(2, -2));
    assert_eq!(rect, Rect::new(-1, -2, 3, 3));
}

#[test]
fn rect_extend_to_contain() {
    let mut rect = Rect::new(0, 0, 1, 1);

    rect.extend_to_contain(Rect::new(1, 1, 1, 1));
    assert_eq!(rect, Rect::new(0, 0, 2, 2));

    rect.extend_to_contain(Rect::new(-1, -1, 1, 1));
    assert_eq!(rect, Rect::new(-1, -1, 3, 3));

    rect.extend_to_contain(Rect::new(10, -1, 1, 15));
    assert_eq!(rect, Rect::new(-1, -1, 12, 15));
}

#[test]
fn rect_push2() {
    let mut rect = Rect::new(0, 0, 1, 1);

    rect.push(Vec2::new(1, 1));
    assert_eq!(rect, Rect::new(0, 0, 1, 1));

    rect.push(Vec2::new(-1, -1));
    assert_eq!(rect, Rect::new(-1, -1, 2, 2));

    rect.push(Vec2::new(10, -1));
    assert_eq!(rect, Rect::new(-1, -1, 11, 2));
}

#[test]
fn option_rect_extend_to_contain() {
    let mut rect = OptionRect::default();

    rect.extend_to_contain(Rect::new(1, 1, 1, 1));
    assert_eq!(rect.unwrap(), Rect::new(1, 1, 1, 1));

    rect.extend_to_contain(Rect::new(-1, -1, 1, 1));
    assert_eq!(rect.unwrap(), Rect::new(-1, -1, 3, 3));

    rect.extend_to_contain(Rect::new(10, -1, 1, 15));
    assert_eq!(rect.unwrap(), Rect::new(-1, -1, 12, 15));
}

#[test]
fn option_rect_push() {
    let mut rect = OptionRect::default();

    rect.push(Vec2::new(1, 1));
    assert_eq!(rect.unwrap(), Rect::new(1, 1, 0, 0));

    rect.push(Vec2::new(-1, -1));
    assert_eq!(rect.unwrap(), Rect::new(-1, -1, 2, 2));

    rect.push(Vec2::new(10, -1));
    assert_eq!(rect.unwrap(), Rect::new(-1, -1, 11, 2));
}

#[test]
fn option_rect_clip() {
    let rect = OptionRect::from(Rect::new(0, 0, 10, 10));

    let mut r = rect;
    r.clip(Rect::new(2, 2, 1, 1));
    assert_eq!(r.unwrap(), Rect::new(2, 2, 1, 1));

    let mut r = rect;
    r.clip(Rect::new(0, 0, 15, 15));
    assert_eq!(r.unwrap(), Rect::new(0, 0, 10, 10));

    // When there is no intersection.
    let mut r = OptionRect::default();
    r.clip(Rect::new(0, 0, 10, 10));
    assert!(r.is_none());
    let mut r = rect;
    r.clip(Rect::new(-2, 1, 1, 1));
    assert!(r.is_none());
    let mut r = rect;
    r.clip(Rect::new(11, 1, 1, 1));
    assert!(r.is_none());
    let mut r = rect;
    r.clip(Rect::new(1, -2, 1, 1));
    assert!(r.is_none());
    let mut r = rect;
    r.clip(Rect::new(1, 11, 1, 1));
    assert!(r.is_none());
}

#[test]
fn option_rect_from_option() {
    let r = OptionRect::from(Some(Rect::new(1, 2, 3, 4)));
    assert!(r.is_some());
    assert_eq!(r.unwrap(), Rect::new(1, 2, 3, 4));
    assert!(OptionRect::from(None).is_none());
}

#[test]
fn option_rect_deref_mut() {
    let mut r = OptionRect::from(Rect::new(1, 2, 3, 4));
    let taken = r.take();
    assert_eq!(taken, Some(Rect::new(1, 2, 3, 4)));
    assert!(r.is_none());
    *r = Some(Rect::new(0, 0, 1, 1));
    assert_eq!(r.0, Some(Rect::new(0, 0, 1, 1)));
}

#[test]
fn default_for_rect() {
    assert_eq!(
        Rect::default(),
        Rect {
            position: Vec2::new(0, 0),
            size: Vec2::new(0, 0),
        }
    );
}

#[test]
fn rect_with_position() {
    let rect = Rect::new(0, 0, 1, 1);

    assert_eq!(rect.with_position(Vec2::new(1, 1)), Rect::new(1, 1, 1, 1));
}

#[test]
fn rect_with_size() {
    let rect = Rect::new(0, 0, 1, 1);

    assert_eq!(rect.with_size(Vec2::new(10, 10)), Rect::new(0, 0, 10, 10));
}

#[test]
fn rect_inflate() {
    let rect = Rect::new(0, 0, 1, 1);

    assert_eq!(rect.inflate(5, 5), Rect::new(-5, -5, 11, 11));
}

#[test]
fn rect_deflate() {
    let rect = Rect::new(-5, -5, 11, 11);

    assert_eq!(rect.deflate(5, 5), Rect::new(0, 0, 1, 1));
}

#[test]
fn rect_contains() {
    let rect = Rect::new(0, 0, 10, 10);

    assert!(rect.contains(Vec2::new(0, 0)));
    assert!(rect.contains(Vec2::new(0, 10)));
    assert!(rect.contains(Vec2::new(10, 0)));
    assert!(rect.contains(Vec2::new(10, 10)));
    assert!(rect.contains(Vec2::new(5, 5)));

    assert!(!rect.contains(Vec2::new(0, 20)));
}

#[test]
fn rect_center() {
    let rect = Rect::new(0, 0, 10, 10);

    assert_eq!(rect.center(), Vec2::new(5, 5));
}

#[test]
fn rect_center_rounds_toward_zero() {
    assert_eq!(Rect::new(0, 0, 5, -5).center(), Vec2::new(2, -2));
}

#[test]
fn rect_push() {
    let mut rect = Rect::new(10, 10, 11, 11);

    rect.push(Vec2::new(0, 0));
    assert_eq!(rect, Rect::new(0, 0, 21, 21));

    rect.push(Vec2::new(0, 20));
    assert_eq!(rect, Rect::new(0, 0, 21, 21));

    rect.push(Vec2::new(20, 20));
    assert_eq!(rect, Rect::new(0, 0, 21, 21));

    rect.push(Vec2::new(30, 30));
    assert_eq!(rect, Rect::new(0, 0, 30, 30));
}

#[test]
fn rect_getters() {
    let rect = Rect::new(0, 0, 1, 1);

    assert_eq!(rect.left_top_corner(), Vec2::new(0, 0));
    assert_eq!(rect.left_bottom_corner(), Vec2::new(0, 1));
    assert_eq!(rect.right_top_corner(), Vec2::new(1, 0));
    assert_eq!(rect.right_bottom_corner(), Vec2::new(1, 1));

    assert_eq!(rect.x(), 0);
    assert_eq!(rect.y(), 0);
    assert_eq!(rect.w(), 1);
    assert_eq!(rect.h(), 1);
}

#[test]
fn rect_clip_by() {
    let rect = Rect::new(0, 0, 10, 10);

    assert_eq!(
        rect.clip_by(Rect::new(2, 2, 1, 1)).unwrap(),
        Rect::new(2, 2, 1, 1)
    );
    assert_eq!(
        rect.clip_by(Rect::new(0, 0, 15, 15)).unwrap(),
        Rect::new(0, 0, 10, 10)
    );

    // When there is no intersection.
    assert!(rect.clip_by(Rect::new(-2, 1, 1, 1)).is_none());
    assert!(rect.clip_by(Rect::new(11, 1, 1, 1)).is_none());
    assert!(rect.clip_by(Rect::new(1, -2, 1, 1)).is_none());
    assert!(rect.clip_by(Rect::new(1, 11, 1, 1)).is_none());
}

#[test]
fn rect_clip_by_partial_overlap() {
    let rect = Rect::new(0, 0, 10, 10);
    assert_eq!(
        rect.clip_by(Rect::new(-5, 4, 8, 20)).unwrap(),
        Rect::new(0, 4, 3, 6)
    );
    // Touching along an edge still clips, to an empty rectangle.
    assert_eq!(
        rect.clip_by(Rect::new(10, 0, 5, 5)).unwrap(),
        Rect::new(10, 0, 0, 5)
    );
}

#[test]
fn rect_translate() {
    let rect = Rect::new(0, 0, 10, 10);

    assert_eq!(rect.translate(Vec2::new(5, 5)), Rect::new(5, 5, 10, 10));
}

#[test]
fn rect_intersects_circle() {
    // Twice the size of a unit square, so that every coordinate is an integer.
    let rect = Rect::new(0, 0, 2, 2);

    assert!(!rect.intersects_circle(Vec2::new(10, 10), 2));
    assert!(rect.intersects_circle(Vec2::new(0, 0), 2));
    assert!(rect.intersects_circle(Vec2::new(-1, -1), 2));
}

#[test]
fn rect_intersects_circle_at_exact_distance() {
    let rect = Rect::new(0, 0, 2, 2);
    // The nearest point is 3 away: a radius of 3 only touches, which does not count.
    assert!(!rect.intersects_circle(Vec2::new(5, 1), 3));
    assert!(rect.intersects_circle(Vec2::new(5, 1), 4));
}

#[test]
fn rect_transform() {
    let rect = Rect::new(0, 0, 1, 1);

    assert_eq!(
        rect.transform(&Matrix3::new(
            1, 0, 0, //
            0, 1, 0, //
            0, 0, 1,
        )),
        rect,
    );

    assert_eq!(
        rect.transform(&Matrix3::new(
            2, 0, 0, //
            0, 2, 0, //
            0, 0, 2,
        )),
        Rect::new(0, 0, 2, 2),
    );
}

#[test]
fn rect_transform_translates_and_mirrors() {
    let rect = Rect::new(1, 2, 3, 4);
    assert_eq!(
        rect.transform(&Matrix3::new(
            -1, 0, 10, //
            0, 1, 5, //
            0, 0, 1,
        )),
        Rect::new(6, 7, 3, 4),
    );
}
