use dungeon::util::{Rect, Vec2};

#[test]
fn vec2_default_is_origin() {
    let v = Vec2::default();
    assert_eq!(v, Vec2 { x: 0, y: 0 });
}

#[test]
fn rect_metrics() {
    let r = Rect { left: 2, top: 2, right: 6, bottom: 10 };
    assert_eq!(r.width(), 4);
    assert_eq!(r.height(), 8);
    assert_eq!(r.area(), 32);
    assert_eq!(r.center(), (4, 6));
}

#[test]
fn splittable_thresholds() {
    // a side must exceed twice the minimum room size to be splittable
    let r = Rect { left: 0, top: 0, right: 8, bottom: 9 };
    assert!(!r.vsplittable());
    assert!(r.hsplittable());
    let s = Rect { left: 0, top: 0, right: 9, bottom: 8 };
    assert!(s.vsplittable());
    assert!(!s.hsplittable());
}

#[test]
fn split_ranges_leave_margins() {
    let r = Rect { left: 10, top: 20, right: 30, bottom: 40 };
    assert_eq!(r.vsplit_range(), (14, 26));
    assert_eq!(r.hsplit_range(), (24, 36));
}

#[test]
fn vsplit_tiles_parent() {
    let r = Rect { left: 10, top: 20, right: 30, bottom: 40 };
    let (a, b) = r.vsplit(17);
    // the two halves share the split line and cover the parent exactly
    assert_eq!(a, Rect { left: 10, top: 20, right: 17, bottom: 40 });
    assert_eq!(b, Rect { left: 17, top: 20, right: 30, bottom: 40 });
    assert_eq!(a.width() + b.width(), r.width());
}

#[test]
fn hsplit_tiles_parent() {
    let r = Rect { left: 10, top: 20, right: 30, bottom: 40 };
    let (a, b) = r.hsplit(25);
    assert_eq!(a, Rect { left: 10, top: 20, right: 30, bottom: 25 });
    assert_eq!(b, Rect { left: 10, top: 25, right: 30, bottom: 40 });
    assert_eq!(a.height() + b.height(), r.height());
}

#[test]
fn trimmed_full_factor_keeps_rect() {
    let r = Rect { left: 3, top: 4, right: 13, bottom: 14 };
    assert_eq!(r.trimmed(1000, 1000), r);
}

#[test]
fn trimmed_shrinks_from_top_left() {
    let r = Rect { left: 0, top: 0, right: 10, bottom: 10 };
    let t = r.trimmed(500, 800);
    assert_eq!(t, Rect { left: 0, top: 0, right: 5, bottom: 8 });
}

#[test]
fn trimmed_floors_at_min_size() {
    let r = Rect { left: 0, top: 0, right: 10, bottom: 10 };
    let t = r.trimmed(100, 100);
    // one tenth of the span would be 1; the floor keeps 4
    assert_eq!(t, Rect { left: 0, top: 0, right: 4, bottom: 4 });
}
