use tiler::ErrorKind;
use tiler::Position;
use tiler::Rectangle;
use tiler::Region;

fn region(x: i64, y: i64, w: u64, h: u64) -> Region {
    Region::new(Rectangle::new(w, h), Position::new(x, y), false)
}

#[test]
fn constructors_store_fields() {
    let size = Rectangle::new(640, 480);
    assert_eq!(size.w, 640);
    assert_eq!(size.h, 480);
    let pos = Position::new(-3, 7);
    assert_eq!(pos.x, -3);
    assert_eq!(pos.y, 7);
    let r = Region::new(size, pos, true);
    assert_eq!(r.size, size);
    assert_eq!(r.pos, pos);
    assert!(r.float);
}

#[test]
fn area_multiplies_width_and_height() {
    assert_eq!(region(5, 5, 30, 40).area(), 1200);
    assert_eq!(region(-100, -100, 0, 999).area(), 0);
}

#[test]
fn edges_are_derived_from_position_and_size() {
    let r = region(10, -20, 100, 50);
    assert_eq!(r.top(), -20);
    assert_eq!(r.bottom(), 30);
    assert_eq!(r.left(), 10);
    assert_eq!(r.right(), 110);
}

#[test]
fn set_top_moves_edge_and_keeps_bottom() {
    let mut r = region(0, 0, 100, 50);
    assert_eq!(r.set_top(10), Ok(()));
    assert_eq!(r.pos.y, 10);
    assert_eq!(r.size.h, 40);
    assert_eq!(r.bottom(), 50);
    assert_eq!(r.size.w, 100);
}

#[test]
fn set_top_below_minimum_fails_unchanged() {
    let mut r = region(0, 0, 100, 50);
    let before = r;
    assert_eq!(r.set_top(31), Err(ErrorKind::InvalidRegion));
    assert_eq!(r, before);
    // the boundary itself is still allowed: height lands exactly on the minimum
    assert_eq!(r.set_top(30), Ok(()));
    assert_eq!(r.size.h, 20);
}

#[test]
fn set_bottom_moves_edge_and_keeps_top() {
    let mut r = region(0, 5, 100, 50);
    assert_eq!(r.set_bottom(40), Ok(()));
    assert_eq!(r.pos.y, 5);
    assert_eq!(r.size.h, 35);
}

#[test]
fn set_bottom_below_minimum_fails_unchanged() {
    let mut r = region(0, 5, 100, 50);
    let before = r;
    assert_eq!(r.set_bottom(24), Err(ErrorKind::InvalidRegion));
    assert_eq!(r, before);
    assert_eq!(r.set_bottom(25), Ok(()));
    assert_eq!(r.size.h, 20);
}

#[test]
fn set_left_moves_edge_and_keeps_right() {
    let mut r = region(10, 0, 100, 50);
    assert_eq!(r.set_left(50), Ok(()));
    assert_eq!(r.pos.x, 50);
    assert_eq!(r.size.w, 60);
    assert_eq!(r.right(), 110);
}

#[test]
fn set_left_below_minimum_fails_unchanged() {
    let mut r = region(10, 0, 100, 50);
    let before = r;
    assert_eq!(r.set_left(91), Err(ErrorKind::InvalidRegion));
    assert_eq!(r, before);
}

#[test]
fn set_right_moves_edge_and_keeps_left() {
    let mut r = region(10, 0, 100, 50);
    assert_eq!(r.set_right(60), Ok(()));
    assert_eq!(r.pos.x, 10);
    assert_eq!(r.size.w, 50);
}

#[test]
fn set_right_below_minimum_fails_unchanged() {
    let mut r = region(10, 0, 100, 50);
    let before = r;
    assert_eq!(r.set_right(29), Err(ErrorKind::InvalidRegion));
    assert_eq!(r, before);
}

#[test]
fn setters_work_with_negative_coordinates() {
    let mut r = region(-200, -300, 100, 100);
    assert_eq!(r.set_top(-250), Ok(()));
    assert_eq!(r.pos.y, -250);
    assert_eq!(r.size.h, 50);
    assert_eq!(r.set_right(-150), Ok(()));
    assert_eq!(r.size.w, 50);
}
