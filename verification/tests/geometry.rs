use roguelike::map::{tile_color, Rect, Tile};
use roguelike::object::Color;

#[test]
fn rect_new_sets_corners() {
    let r = Rect::new(2, 3, 7, 5);
    assert_eq!(r.x1, 2);
    assert_eq!(r.y1, 3);
    assert_eq!(r.x2, 9);
    assert_eq!(r.y2, 8);
}

#[test]
fn rect_center_rounds_toward_near_corner() {
    let r = Rect::new(2, 3, 7, 5);
    assert_eq!(r.get_center(), (5, 5));
    let s = Rect::new(0, 0, 3, 3);
    assert_eq!(s.get_center(), (1, 1));
}

#[test]
fn rect_intersects_overlapping() {
    let a = Rect::new(0, 0, 10, 10);
    let b = Rect::new(5, 5, 10, 10);
    assert!(a.intersects_with(&b));
}

#[test]
fn rect_intersects_touching_edges() {
    let a = Rect::new(0, 0, 5, 5);
    let b = Rect::new(5, 0, 5, 5);
    assert!(a.intersects_with(&b));
}

#[test]
fn rect_does_not_intersect_distant() {
    let a = Rect::new(0, 0, 5, 5);
    let b = Rect::new(20, 20, 5, 5);
    assert!(!a.intersects_with(&b));
}

#[test]
fn rect_intersection_symmetric_pairs() {
    let rects = [
        Rect::new(0, 0, 5, 5),
        Rect::new(5, 0, 5, 5),
        Rect::new(3, 3, 10, 2),
        Rect::new(20, 20, 6, 6),
        Rect::new(2, 2, 1, 1),
        Rect::new(6, 1, 4, 9),
    ];
    for a in rects.iter() {
        for b in rects.iter() {
            assert_eq!(a.intersects_with(b), b.intersects_with(a));
        }
    }
}

#[test]
fn tile_new_empty_flags() {
    let t = Tile::new_empty();
    assert!(!t.solid);
    assert!(t.transparent);
    assert!(!t.explored);
}

#[test]
fn tile_new_wall_flags() {
    let t = Tile::new_wall();
    assert!(t.solid);
    assert!(!t.transparent);
    assert!(!t.explored);
}

#[test]
fn tile_color_four_cases() {
    assert_eq!(tile_color(false, true), Color { r: 0, g: 0, b: 100 });
    assert_eq!(tile_color(false, false), Color { r: 50, g: 50, b: 150 });
    assert_eq!(tile_color(true, true), Color { r: 130, g: 110, b: 50 });
    assert_eq!(tile_color(true, false), Color { r: 200, g: 180, b: 50 });
}
