use rose::geometry::{close, Line, Point, Quadrilateral, RobinsonTriangle, TileType, SCALE};
use rose::seeds::{get_all_seeds, rhombus};
use rose::tiling::{generate_tiling, merge_pairs, merge_pairs_hashing};
use rand::Rng;

fn random_point<R: Rng>(rng: &mut R, min: i64, max: i64) -> Point {
    let x = rng.gen_range(min..max);
    let y = rng.gen_range(min..max);
    Point(x, y)
}

const MIN: i64 = -1000 * SCALE;
const MAX: i64 = 1000 * SCALE;

#[test]
fn test_merge_pairs() {
    let mut rng = rand::thread_rng();
    let mut triangles: Vec<RobinsonTriangle> = Vec::new();
    for _ in 0..10_000 {
        let p = random_point(&mut rng, MIN, MAX);
        let q = random_point(&mut rng, MIN, MAX);
        if p == q {
            continue;
        }
        let triangle_type = if rng.gen() {
            TileType::LargeRhombus
        } else {
            TileType::SmallRhombus
        };
        triangles.push(RobinsonTriangle::from_base(p, q, triangle_type, true));
        triangles.push(RobinsonTriangle::from_base(p, q, triangle_type, false));
    }
    let original_len = triangles.len();
    let rhombs = merge_pairs(triangles).expect("matched pairs merge cleanly");
    assert_eq!(original_len, rhombs.len() * 2);
}

fn quad_center(q: &Quadrilateral) -> Point {
    Point(
        (q.a.0 + q.b.0 + q.c.0 + q.d.0) / 4,
        (q.a.1 + q.b.1 + q.c.1 + q.d.1) / 4,
    )
}

#[test]
fn test_merge_pairs_hashing() {
    for seed in all_seeds_vec() {
        let transformed = seed
            .transform(Point(500 * SCALE, 500 * SCALE), 1000 * SCALE)
            .expect("transform classifies");
        let triangles = generate_tiling(transformed, 3).expect("tiling classifies");
        let mut expected = merge_pairs(triangles.clone()).expect("baseline merges");
        let mut got = merge_pairs_hashing(triangles).expect("hashing merges");

        // Make sure we didn't miss any triangles
        assert_eq!(expected.len(), got.len());

        expected.sort_by(|q1, q2| Point::compare(quad_center(q1), quad_center(q2)));
        got.sort_by(|q1, q2| Point::compare(quad_center(q1), quad_center(q2)));
        for (e, g) in expected.iter().zip(got.iter()) {
            assert!(close(quad_center(e), quad_center(g)));
        }
    }
}

fn all_seeds_vec() -> Vec<rose::seeds::Seed> {
    get_all_seeds().expect("every named seed constructs")
}

/// This tests many combinations of seeds, scales, and generations to
/// make sure that `merge_pairs_hashing` will never result in a
/// collision. This test can be pretty slow.
#[test]
fn test_merge_pairs_hashing_collision() {
    for seed in all_seeds_vec() {
        for size in 1..5i64 {
            let scale = size * 200 * SCALE;
            let mut triangles = seed
                .clone()
                .transform(Point(scale / 2, scale / 2), scale)
                .expect("transform classifies");
            for _ in 0..8 {
                triangles = generate_tiling(triangles, 1).expect("tiling classifies");
                assert!(merge_pairs_hashing(triangles.clone()).is_some());
            }
        }
    }
}

#[test]
fn test_matching_rules() {
    // Create two rhombuses, a small one centered at x=1000, and a large
    // one next to it, centered at x=4000. They are scaled appropriately.
    let mut seed = rhombus(TileType::SmallRhombus)
        .unwrap()
        .transform(Point(1000 * SCALE, 2000 * SCALE), 1000 * SCALE)
        .expect("transform classifies");
    let large = rhombus(TileType::LargeRhombus)
        .unwrap()
        .transform(Point(4000 * SCALE, 2000 * SCALE), 1000 * SCALE)
        .expect("transform classifies");
    seed.extend(large);

    // Decompose them for eight generations
    let triangles = generate_tiling(seed, 8).expect("tiling classifies");

    #[derive(Debug, PartialEq)]
    enum EdgeType {
        Type1,     // Goes from B to A in a small triangle or A to B in a large one
        Type2,     // Goes from B to C in a small or large triangle
        SmallBase, // Goes from A to C in a small triangle
        LargeBase, // Goes from A to C in a large triangle
    }

    // Split up the triangles into their composing edges
    let mut edges: Vec<(EdgeType, Line)> = Vec::new();
    for t in triangles {
        match t.triangle_type {
            TileType::SmallRhombus => {
                edges.push((EdgeType::Type1, Line(t.b, t.a)));
                edges.push((EdgeType::Type2, Line(t.b, t.c)));
                edges.push((EdgeType::SmallBase, Line(t.a, t.c)));
            }
            TileType::LargeRhombus => {
                edges.push((EdgeType::Type1, Line(t.a, t.b)));
                edges.push((EdgeType::Type2, Line(t.b, t.c)));
                edges.push((EdgeType::LargeBase, Line(t.a, t.c)));
            }
            _ => unreachable!(),
        }
    }

    // We sort here for reasons similar to those in `merge_pairs`
    edges.sort_by(|a, b| Point::compare(a.1.median(), b.1.median()));

    // Are there any three edges that have the same median?
    for es in edges.windows(3) {
        let first_median = es[0].1.median();
        let second_median = es[1].1.median();
        let third_median = es[2].1.median();
        assert!(!(close(first_median, second_median) && close(second_median, third_median)));
    }

    // Are there any adjacent edges that have different types or orientations?
    for es in edges.windows(2) {
        let (current_type, current_line) = &es[0];
        let (next_type, next_line) = &es[1];
        let c_median = current_line.median();
        let n_median = next_line.median();
        if close(c_median, n_median) {
            assert_eq!(current_type, next_type);
            assert!(close(current_line.0, next_line.0));
            assert!(close(current_line.1, next_line.1));
        }
    }
}

#[test]
fn test_generate_tiling_zero_is_identity() {
    let seed = rhombus(TileType::LargeRhombus)
        .unwrap()
        .transform(Point(0, 0), 1000 * SCALE)
        .expect("transform classifies");
    let out = generate_tiling(seed.clone(), 0).expect("zero generations always succeed");
    assert_eq!(out, seed);
}

#[test]
fn test_tiling_count_closed_form() {
    // The triangle count after N generations follows the branching
    // recurrence: each small triangle yields (1 small, 1 large), each
    // large one (1 small, 2 large).
    for seed in all_seeds_vec() {
        let triangles = seed
            .transform(Point(0, 0), 1000 * SCALE)
            .expect("transform classifies");
        let mut small: u64 = triangles
            .iter()
            .filter(|t| t.triangle_type == TileType::SmallRhombus)
            .count() as u64;
        let mut large: u64 = triangles
            .iter()
            .filter(|t| t.triangle_type == TileType::LargeRhombus)
            .count() as u64;
        let result = generate_tiling(triangles, 5).expect("tiling classifies");
        for _ in 0..5 {
            let s = small + large;
            let l = small + 2 * large;
            small = s;
            large = l;
        }
        assert_eq!(result.len() as u64, small + large);
        assert_eq!(
            result
                .iter()
                .filter(|t| t.triangle_type == TileType::SmallRhombus)
                .count() as u64,
            small
        );
    }
}

#[test]
fn test_merge_single_large_rhombus() {
    // Two triangles forming a large rhombus over the base from (0,0) to
    // (1000,0), with opposite handedness: after zero generations the
    // merge returns exactly one rhombus made of the shared base and the
    // two apexes.
    let a = Point(0, 0);
    let c = Point(1000 * SCALE, 0);
    let t1 = RobinsonTriangle::from_base(a, c, TileType::LargeRhombus, true);
    let t2 = RobinsonTriangle::from_base(a, c, TileType::LargeRhombus, false);
    let seed = vec![t1, t2];
    let triangles = generate_tiling(seed, 0).expect("zero generations always succeed");
    let quads = merge_pairs(triangles).expect("a matched pair merges cleanly");
    assert_eq!(quads.len(), 1);
    let q = &quads[0];
    assert!(close(q.a, t1.a));
    assert!(close(q.b, t1.b));
    assert!(close(q.c, t1.c));
    assert!(close(q.d, t2.b));
    // The apexes sit on opposite sides of the base.
    assert!(q.b.1 != 0 && q.d.1 != 0 && (q.b.1 < 0) != (q.d.1 < 0));
}

#[test]
fn test_empty_inputs() {
    assert_eq!(generate_tiling(Vec::new(), 0), Some(Vec::new()));
    assert_eq!(generate_tiling(Vec::new(), 7), Some(Vec::new()));
    assert_eq!(merge_pairs(Vec::new()).map(|v| v.len()), Some(0));
    assert_eq!(merge_pairs_hashing(Vec::new()).map(|v| v.len()), Some(0));
}

#[test]
fn test_merge_rejects_mismatched_bases() {
    // Two valid triangles whose base midpoints coincide but whose bases
    // differ: the merge's self-check must refuse them.
    let t1 = RobinsonTriangle::from_base(
        Point(0, 0),
        Point(1000 * SCALE, 0),
        TileType::LargeRhombus,
        true,
    );
    let t2 = RobinsonTriangle::from_base(
        Point(200 * SCALE, -400 * SCALE),
        Point(800 * SCALE, 400 * SCALE),
        TileType::LargeRhombus,
        true,
    );
    assert!(close(t1.base_median(), t2.base_median()));
    assert!(merge_pairs(vec![t1, t2]).is_none());
}

#[test]
fn test_generate_tiling_rejects_mistagged_geometry() {
    // A triangle whose tag contradicts its vertices fails the
    // decomposition self-check: the whole call aborts with `None`.
    let good = RobinsonTriangle::from_base(
        Point(0, 0),
        Point(1000 * SCALE, 0),
        TileType::LargeRhombus,
        true,
    );
    let bad = RobinsonTriangle {
        triangle_type: TileType::SmallRhombus,
        a: good.a,
        b: good.b,
        c: good.c,
    };
    assert!(generate_tiling(vec![bad], 1).is_none());
}

#[test]
fn test_merge_pairs_hashing_rejects_collisions() {
    // Two triangles whose base midpoints land in the same grid cell
    // without being tolerance-close are a collision: the self-check
    // refuses them.
    let t1 = RobinsonTriangle::from_base(
        Point(-5 * SCALE, 0),
        Point(995 * SCALE, 0),
        TileType::LargeRhombus,
        true,
    );
    let t2 = RobinsonTriangle::from_base(
        Point(-SCALE, 0),
        Point(999 * SCALE, 0),
        TileType::LargeRhombus,
        true,
    );
    assert!(!close(t1.base_median(), t2.base_median()));
    assert!(merge_pairs_hashing(vec![t1, t2]).is_none());
}

#[test]
fn test_decompose_kind_mix() {
    // One large triangle decomposes into two large children and a small
    // one; a small triangle into a small and a large child.
    let large = RobinsonTriangle::from_base(
        Point(0, 0),
        Point(1000 * SCALE, 0),
        TileType::LargeRhombus,
        true,
    );
    let children = rose::tiling::decompose(&large).expect("valid geometry decomposes");
    assert_eq!(children.len(), 3);
    assert_eq!(children[0].triangle_type, TileType::LargeRhombus);
    assert_eq!(children[1].triangle_type, TileType::LargeRhombus);
    assert_eq!(children[2].triangle_type, TileType::SmallRhombus);

    let small = RobinsonTriangle::from_base(
        Point(0, 0),
        Point(1000 * SCALE, 0),
        TileType::SmallRhombus,
        true,
    );
    let children = rose::tiling::decompose(&small).expect("valid geometry decomposes");
    assert_eq!(children.len(), 2);
    assert_eq!(children[0].triangle_type, TileType::SmallRhombus);
    assert_eq!(children[1].triangle_type, TileType::LargeRhombus);

    // The engine does not subdivide the kite and dart kinds.
    let kite = RobinsonTriangle::from_base(
        Point(0, 0),
        Point(1000 * SCALE, 0),
        TileType::Kite,
        true,
    );
    assert!(rose::tiling::decompose(&kite).is_none());
}
