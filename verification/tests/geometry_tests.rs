use rose::geometry::{close, close_scalar, Line, Point, RobinsonTriangle, TileType, SCALE};
use rand::Rng;

fn random_point<R: Rng>(rng: &mut R, min: i64, max: i64) -> Point {
    let x = rng.gen_range(min..max);
    let y = rng.gen_range(min..max);
    Point(x, y)
}

const MIN: i64 = -1000 * SCALE;
const MAX: i64 = 1000 * SCALE;

#[test]
fn test_point_arithmetic() {
    let mut rng = rand::thread_rng();
    let zero = Point::zero();
    for _ in 0..10_000 {
        let a = random_point(&mut rng, MIN, MAX);
        assert!(close(a, a.neg().neg()));
        assert!(close(a, a.add(zero)));
        assert!(close(a, a.sub(zero)));
        assert!(close(a, a.scale(SCALE)));
        assert!(close(a, a.scale_div(SCALE)));
        assert!(close(zero, a.scale(0)));
        assert_eq!(a.cross(a), 0);
        assert_eq!(a.cross(a.neg()), 0);

        let b = random_point(&mut rng, MIN, MAX);
        assert!(close(a.add(b), b.add(a)));
        assert!(close(a.sub(b), b.sub(a).neg()));
        assert_eq!(a.cross(b), -(b.cross(a)));
        assert_eq!(a.cross(b), -(a.neg().cross(b)));
        assert_eq!(a.cross(b), a.neg().cross(b.neg()));
    }
}

#[test]
fn test_point_distance() {
    let mut rng = rand::thread_rng();
    let zero = Point::zero();
    for _ in 0..10_000 {
        let a = random_point(&mut rng, MIN, MAX);
        // `normalized` accepts only measured, non-degenerate lengths:
        // at least a fifth of a unit.
        let d2 = (a.0 as i128) * (a.0 as i128) + (a.1 as i128) * (a.1 as i128);
        if d2 < 40_000_000_000 {
            continue;
        }
        assert!(close_scalar(zero.distance_to(a.normalized()), SCALE));
        assert_eq!(a.distance_to(a), 0);

        let b = random_point(&mut rng, MIN, MAX);
        assert_eq!(a.distance_to(b), b.distance_to(a));
    }
}

fn run_point_transform_tests<R: Rng>(a: Point, rng: &mut R) {
    assert!(close(a.mirror_x().mirror_x(), a));
    assert!(close(a.mirror_y().mirror_y(), a));
    assert!(close(a.mirror_x().mirror_y(), a.mirror_y().mirror_x()));
    assert!(close(a.mirror_x().mirror_y(), a.rotate(180)));
    assert!(close(a.rotate(0), a));
    assert!(close(a.rotate(360), a));
    let x = 36 * rng.gen_range(0..10);
    assert!(close(a.rotate(x).rotate(x), a.rotate(2 * x)));
    assert!(close(a.rotate(x).rotate(-x), a));
}

#[test]
fn test_point_transform() {
    let mut rng = rand::thread_rng();
    for _ in 0..10_000 {
        let a = random_point(&mut rng, MIN, MAX);
        run_point_transform_tests(a, &mut rng);
    }
}

fn run_triangle_transform_tests<R: Rng>(t: &RobinsonTriangle, rng: &mut R) {
    let mxx = t.mirror_x().unwrap().mirror_x().unwrap();
    assert!(RobinsonTriangle::is_close(&mxx, t));
    let myy = t.mirror_y().unwrap().mirror_y().unwrap();
    assert!(RobinsonTriangle::is_close(&myy, t));
    let mxy = t.mirror_x().unwrap().mirror_y().unwrap();
    let myx = t.mirror_y().unwrap().mirror_x().unwrap();
    assert!(RobinsonTriangle::is_close(&mxy, &myx));
    assert!(RobinsonTriangle::is_close(&mxy, &t.rotate(180).unwrap()));
    assert!(RobinsonTriangle::is_close(&t.rotate(0).unwrap(), t));
    assert!(RobinsonTriangle::is_close(&t.rotate(360).unwrap(), t));
    let x = 36 * rng.gen_range(0..10);
    let twice = t.rotate(x).unwrap().rotate(x).unwrap();
    assert!(RobinsonTriangle::is_close(&twice, &t.rotate(2 * x).unwrap()));
    let back = t.rotate(x).unwrap().rotate(-x).unwrap();
    assert!(RobinsonTriangle::is_close(&back, t));
}

#[test]
fn test_triangle_transform() {
    let mut rng = rand::thread_rng();
    let types = [
        TileType::SmallRhombus,
        TileType::LargeRhombus,
        TileType::Kite,
        TileType::Dart,
    ];
    for _ in 0..10_000 {
        let a = random_point(&mut rng, MIN, MAX);
        let c = random_point(&mut rng, MIN, MAX);
        if a == c {
            continue;
        }
        for &triangle_type in &types {
            run_triangle_transform_tests(
                &RobinsonTriangle::from_base(a, c, triangle_type, false),
                &mut rng,
            );
            run_triangle_transform_tests(
                &RobinsonTriangle::from_base(a, c, triangle_type, true),
                &mut rng,
            );
        }
    }
}

#[test]
fn test_triangle_from_base() {
    let mut rng = rand::thread_rng();
    let types = [
        TileType::SmallRhombus,
        TileType::LargeRhombus,
        TileType::Kite,
        TileType::Dart,
    ];
    for _ in 0..10_000 {
        let a = random_point(&mut rng, MIN, MAX);
        let c = random_point(&mut rng, MIN, MAX);
        if a == c {
            continue;
        }
        for &triangle_type in &types {
            assert_eq!(
                RobinsonTriangle::from_base(a, c, triangle_type, false).triangle_type,
                triangle_type
            );
            assert_eq!(
                RobinsonTriangle::from_base(a, c, triangle_type, true).triangle_type,
                triangle_type
            );
        }
    }
}

#[test]
fn test_infer_round_trips_from_base() {
    // Building from a base and re-inferring the kind from the resulting
    // vertices reproduces the requested kind, for every kind and both
    // handedness values.
    let mut rng = rand::thread_rng();
    let types = [
        TileType::SmallRhombus,
        TileType::LargeRhombus,
        TileType::Kite,
        TileType::Dart,
    ];
    for _ in 0..2_000 {
        let a = random_point(&mut rng, MIN, MAX);
        let c = random_point(&mut rng, MIN, MAX);
        // Tiny bases leave the fixed-point ratio check too little
        // precision; the engine never builds triangles this small.
        if a.distance_to(c) < SCALE / 100 {
            continue;
        }
        for &triangle_type in &types {
            for &handed in &[false, true] {
                let t = RobinsonTriangle::from_base(a, c, triangle_type, handed);
                assert_eq!(
                    RobinsonTriangle::infer_triangle_type(t.a, t.b, t.c),
                    Some(triangle_type)
                );
            }
        }
    }
}

#[test]
fn test_closeness_is_not_transitive() {
    // The tolerance relation deliberately fails transitivity: each hop
    // is below the tolerance but the two ends are not.
    let a = 0;
    let b = 9;
    let c = 18;
    assert!(close_scalar(a, b));
    assert!(close_scalar(b, c));
    assert!(!close_scalar(a, c));
}

#[test]
fn test_invalid_triangle_is_rejected() {
    // Collinear points are isosceles but have a 2:1 side ratio, which
    // fits no tile kind.
    let r = RobinsonTriangle::new(Point(0, 0), Point(SCALE, 0), Point(2 * SCALE, 0));
    assert!(r.is_none());
    // A degenerate apex has a zero-length leg.
    let r = RobinsonTriangle::new(Point(0, 0), Point(0, 0), Point(SCALE, 0));
    assert!(r.is_none());
}

#[test]
fn test_quadrilateral_type_and_arcs() {
    let a = Point(0, 0);
    let c = Point(1000 * SCALE, 0);
    for &(kind, other) in &[
        (TileType::LargeRhombus, TileType::SmallRhombus),
        (TileType::SmallRhombus, TileType::LargeRhombus),
    ] {
        let t1 = RobinsonTriangle::from_base(a, c, kind, true);
        let t2 = RobinsonTriangle::from_base(a, c, kind, false);
        let quad = rose::geometry::Quadrilateral {
            a: t1.a,
            b: t1.b,
            c: t1.c,
            d: t2.b,
        };
        assert_eq!(quad.quadrilateral_type(), kind);
        assert_ne!(quad.quadrilateral_type(), other);

        let (arc1, arc2) = quad.arcs();
        assert_eq!(arc1.1, quad.a);
        assert_eq!(arc2.1, quad.c);
        assert!(close(arc1.0, Line(quad.a, quad.b).median()));
        assert!(close(arc1.2, Line(quad.a, quad.d).median()));
        assert!(close(arc2.0, Line(quad.c, quad.b).median()));
        assert!(close(arc2.2, Line(quad.c, quad.d).median()));
    }
}

#[test]
fn test_triangle_arcs_lie_on_the_legs() {
    let a = Point(0, 0);
    let c = Point(1000 * SCALE, 0);
    let t = RobinsonTriangle::from_base(a, c, TileType::LargeRhombus, true);
    let (arc1, arc2) = t.arcs();
    // Each arc is centered on a base vertex and starts at the midpoint
    // of the leg meeting there.
    assert_eq!(arc1.1, t.a);
    assert_eq!(arc2.1, t.c);
    assert!(close(arc1.0, Line(t.a, t.b).median()));
    assert!(close(arc2.0, Line(t.c, t.b).median()));
    // The end lies on the base, at the same radius from the vertex.
    let rad1 = arc1.0.distance_to(t.a);
    assert!(close_scalar(arc1.2.0, rad1));
    assert_eq!(arc1.2.1, 0);
    let rad2 = arc2.0.distance_to(t.c);
    assert!(close_scalar(arc2.2.0, c.0 - rad2));
    assert_eq!(arc2.2.1, 0);
}
