use dungeon::dissector::Dissector;
use dungeon::util::Rect;

fn collect(d: &Dissector, n: usize) -> Vec<Rect> {
    let mut it = d.rooms(n);
    let mut out = Vec::new();
    while let Some(r) = it.next() {
        out.push(r);
    }
    out
}

#[test]
fn seeded_build_is_deterministic() {
    let bounds = Rect { left: 1, top: 1, right: 62, bottom: 62 };
    let d1 = Dissector::new_seeded(bounds, 42);
    let d2 = Dissector::new_seeded(bounds, 42);
    assert_eq!(d1.leaves(), d2.leaves());
    assert_eq!(collect(&d1, 25), collect(&d2, 25));
}

#[test]
fn rooms_never_yields_more_than_n() {
    let bounds = Rect { left: 1, top: 1, right: 62, bottom: 62 };
    let d = Dissector::new_seeded(bounds, 7);
    for n in [0usize, 1, 5, 25, 10_000] {
        let rooms = collect(&d, n);
        assert!(rooms.len() <= n);
    }
}

#[test]
fn rooms_yields_only_leaves() {
    let bounds = Rect { left: 1, top: 1, right: 62, bottom: 62 };
    let d = Dissector::new_seeded(bounds, 99);
    let leaves = d.leaves();
    let rooms = collect(&d, 10_000);
    for r in &rooms {
        assert!(leaves.contains(r));
    }
}

#[test]
fn repeated_sampling_does_not_perturb_the_tree() {
    let bounds = Rect { left: 1, top: 1, right: 62, bottom: 62 };
    let d = Dissector::new_seeded(bounds, 5);
    // the sampler snapshots the generator, so two samplings agree
    assert_eq!(collect(&d, 12), collect(&d, 12));
}

#[test]
fn unsplittable_bounds_give_one_leaf() {
    // both sides at most twice the minimum size: the root is the only node
    let bounds = Rect { left: 0, top: 0, right: 8, bottom: 8 };
    let d = Dissector::new_seeded(bounds, 3);
    assert_eq!(d.leaves(), vec![bounds]);
}

#[test]
fn iterator_stops_with_none() {
    let bounds = Rect { left: 0, top: 0, right: 8, bottom: 8 };
    let d = Dissector::new_seeded(bounds, 3);
    let mut it = d.rooms(1);
    let first = it.next();
    assert_eq!(first, Some(bounds));
    assert_eq!(it.next(), None);
    assert_eq!(it.next(), None);
}

#[test]
fn leaves_are_unsplittable_or_small() {
    let bounds = Rect { left: 1, top: 1, right: 62, bottom: 62 };
    let d = Dissector::new_seeded(bounds, 321);
    for r in &d.leaves() {
        let unsplittable = r.width() <= 8 && r.height() <= 8;
        let small = (r.width() as u32) * (r.height() as u32) < 144;
        assert!(unsplittable || small);
    }
}

#[test]
fn entropy_build_has_leaves_within_bounds() {
    let bounds = Rect { left: 1, top: 1, right: 62, bottom: 62 };
    let d = Dissector::new(bounds);
    let leaves = d.leaves();
    assert!(!leaves.is_empty());
    for r in &leaves {
        assert!(r.left >= bounds.left && r.right <= bounds.right);
        assert!(r.top >= bounds.top && r.bottom <= bounds.bottom);
        assert!(r.width() >= 4 && r.height() >= 4);
    }
}
