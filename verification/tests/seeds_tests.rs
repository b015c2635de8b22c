use rose::config::{get_seed_from_arg, ColorScheme, ColorSchemeArgument, SeedArgument};
use rose::geometry::{close_scalar, Line, Point, RobinsonTriangle, TileType, SCALE};
use rose::seeds::{get_all_seeds, pizza, rhombus, rose, Seed, SEED_UNIT};

fn all_seeds() -> Vec<Seed> {
    get_all_seeds().expect("every named seed constructs")
}

#[test]
fn test_side_length() {
    for s in &all_seeds() {
        for t in s.triangles() {
            assert!(close_scalar(Line(t.a, t.b).length(), SEED_UNIT));
            assert!(close_scalar(Line(t.c, t.b).length(), SEED_UNIT));
        }
    }
}

#[test]
fn test_seed_sizes() {
    assert_eq!(rose().unwrap().len(), 40);
    assert_eq!(pizza().unwrap().len(), 10);
    assert_eq!(rhombus(TileType::LargeRhombus).unwrap().len(), 2);
    assert_eq!(rhombus(TileType::SmallRhombus).unwrap().len(), 2);
}

#[test]
fn test_seed_triangles_classify_as_tagged() {
    for s in &all_seeds() {
        for t in s.triangles() {
            assert_eq!(
                RobinsonTriangle::infer_triangle_type(t.a, t.b, t.c),
                Some(t.triangle_type)
            );
        }
    }
}

#[test]
fn test_seed_transform_scales_and_translates() {
    let seed = rhombus(TileType::LargeRhombus).unwrap();
    let center = Point(500 * SCALE, 500 * SCALE);
    let scale = 1000 * SCALE;
    let triangles = seed.transform(center, scale).expect("transform classifies");
    assert_eq!(triangles.len(), 2);
    for t in &triangles {
        // Unit legs became legs of length 1000.
        assert!(close_scalar(Line(t.a, t.b).length(), 1000 * SCALE));
        assert!(close_scalar(Line(t.c, t.b).length(), 1000 * SCALE));
    }
    // The two halves share their base; its midpoint is the center.
    assert!(rose::geometry::close(triangles[0].base_median(), center));
    assert!(rose::geometry::close(triangles[1].base_median(), center));
}

#[test]
fn test_get_seed_from_arg_resolves_every_name() {
    for (arg, n) in [
        (SeedArgument::Rose, 40),
        (SeedArgument::LargeRhombus, 2),
        (SeedArgument::SmallRhombus, 2),
        (SeedArgument::Pizza, 10),
    ] {
        let s = get_seed_from_arg(arg).expect("every named seed constructs");
        assert_eq!(s.len(), n);
    }
}

#[test]
fn test_color_scheme_tables() {
    let red = ColorScheme::from_arg(ColorSchemeArgument::Red);
    assert_eq!(red.quad_colors.0, "#97332b");
    assert_eq!(red.quad_colors.1, "#c05150");
    assert_eq!(red.stroke_color, "white");
    assert_eq!(red.arc_colors.0, "#50d35b");
    let yellow = ColorScheme::from_arg(ColorSchemeArgument::Yellow);
    assert_eq!(yellow.stroke_color, "#9b6a01");
    assert_eq!(yellow.arc_colors.1, "#884ee0");
}
