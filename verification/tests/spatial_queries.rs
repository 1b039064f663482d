use seldom_map_nav::spatial::SpatialIndex;
use seldom_map_nav::vec2::Vec2;

#[test]
fn get_finds_first_entry() {
    let mut idx = SpatialIndex::new();
    idx.insert(7, Vec2::new(1000, 2000));
    idx.insert(9, Vec2::new(-5, 5));
    let p = idx.get(9).unwrap();
    assert_eq!((p.x, p.y), (-5, 5));
    assert!(idx.get(8).is_none());
}

#[test]
fn within_distance_keeps_boundary() {
    let mut idx = SpatialIndex::new();
    idx.insert(1, Vec2::new(1000, 0));
    idx.insert(2, Vec2::new(0, 2000));
    idx.insert(3, Vec2::new(3000, 0));
    let hits = idx.within_distance(Vec2::zero(), 2000);
    // Exactly the entries within 2000, in index order; 3000 is out.
    assert_eq!(hits.len(), 2);
    assert_eq!(hits[0].id, 1);
    assert_eq!(hits[1].id, 2);
}

#[test]
fn nearest_other_skips_self_and_keeps_first_tie() {
    let mut idx = SpatialIndex::new();
    idx.insert(1, Vec2::zero());
    idx.insert(2, Vec2::new(500, 0));
    idx.insert(3, Vec2::new(-500, 0));
    let n = idx.nearest_other(Vec2::zero(), 1).unwrap();
    // Both 2 and 3 are 500 away; the earlier entry wins the tie.
    assert_eq!(n.id, 2);
    let m = idx.nearest_other(Vec2::zero(), 2).unwrap();
    assert_eq!(m.id, 1);
}

#[test]
fn nearest_other_none_when_alone() {
    let mut idx = SpatialIndex::new();
    idx.insert(1, Vec2::zero());
    assert!(idx.nearest_other(Vec2::zero(), 1).is_none());
}
