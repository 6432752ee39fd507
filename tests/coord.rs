use raytracer::coord::Coord;

#[test]
fn coord_keeps_its_fields() {
    let c = Coord::new(3, -4, 5);
    assert_eq!((c.x(), c.y(), c.z()), (3, -4, 5));
    assert_eq!(c, Coord::new(3, -4, 5));
    assert_ne!(c, Coord::new(3, 4, 5));
}

#[test]
fn octants_follow_the_bits() {
    assert_eq!(Coord::octant(0), Coord::new(0, 0, 0));
    assert_eq!(Coord::octant(1), Coord::new(1, 0, 0));
    assert_eq!(Coord::octant(2), Coord::new(0, 1, 0));
    assert_eq!(Coord::octant(5), Coord::new(1, 0, 1));
    assert_eq!(Coord::octant(7), Coord::new(1, 1, 1));
    let mut seen: Vec<Coord> = Vec::new();
    for i in 0..8u8 {
        let c = Coord::octant(i);
        assert!(!seen.contains(&c));
        seen.push(c);
    }
}
