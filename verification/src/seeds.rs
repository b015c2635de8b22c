//! Seed patterns: the unit-scale triangle sets the tiling starts from.
//!
//! A seed is well formed when every triangle in it is a valid tile of
//! unit side length (both legs tolerance-close to one unit).  The
//! constructors check this before handing a `Seed` out, so holding a
//! `Seed` is holding that guarantee; `transform` then scales and
//! translates it into a working triangle set.
//!
//! Internally a seed unit is `SEED_UNIT` coordinate ticks, far finer
//! than the working fixed-point scale: the constructors' rounding then
//! amounts to a relative error around 1e-12, and scaling a seed to any
//! working size costs a single rounding of less than one working
//! coordinate unit.

use vstd::prelude::*;
use crate::geometry::{
    dist_sq, mk_point, point_ok, point_within, spec_add_points, spec_close_scalar,
    spec_from_base, spec_mirror_y_tri, spec_new, spec_rot_point, spec_rotate_tri,
    tri_valid, tri_within,
    Point, RobinsonTriangle, TileType,
};
use crate::num::{floor_div, sqrt_floor};
use crate::tiling::{all_bounded, tri_bounded};

verus! {

/// Coordinate ticks in one seed unit (one triangle side).
pub const SEED_UNIT: i64 = 1_000_000_000_000;

/// The golden ratio in seed coordinate ticks.
pub const GOLDEN_UNIT: i64 = 1_618_033_988_750;

/// Half of a small rhombus's unit-ratio base, in seed coordinate ticks.
pub const SMALL_HALF_BASE: i64 = 309_016_994_375;

/// Half of a large rhombus's unit-ratio base, in seed coordinate ticks.
pub const LARGE_HALF_BASE: i64 = 809_016_994_375;

/// One seed triangle's obligations: valid kind tag, seed-scale
/// coordinates, and both legs tolerance-close to one seed unit.
pub open spec fn seed_tri_wf(t: RobinsonTriangle) -> bool {
    &&& tri_within(t, 4_000_000_000_000)
    &&& tri_valid(t)
    &&& spec_close_scalar(sqrt_floor(dist_sq(t.a, t.b)), SEED_UNIT as int)
    &&& spec_close_scalar(sqrt_floor(dist_sq(t.c, t.b)), SEED_UNIT as int)
}

/// A well-formed seed: every triangle meets `seed_tri_wf`.
pub open spec fn seed_wf(s: Seq<RobinsonTriangle>) -> bool {
    forall|i: int| 0 <= i < s.len() ==> seed_tri_wf(#[trigger] s[i])
}

/// An initial, unit-scale set of triangles defining a starting pattern.
#[derive(Clone)]
pub struct Seed {
    triangles: Vec<RobinsonTriangle>,
}

impl View for Seed {
    type V = Seq<RobinsonTriangle>;

    closed spec fn view(&self) -> Seq<RobinsonTriangle> {
        self.triangles@
    }
}

/// Whether both coordinates lie within `bound`, executably.
fn point_in_bound(p: Point, bound: i64) -> (r: bool)
    requires
        0 <= bound,
    ensures
        r == point_within(p, bound as int),
{
    -bound <= p.0 && p.0 <= bound && -bound <= p.1 && p.1 <= bound
}

/// Whether one triangle meets the seed obligations, executably.
fn seed_tri_check(t: &RobinsonTriangle) -> (r: bool)
    ensures
        r == seed_tri_wf(*t),
{
    if !(point_in_bound(t.a, 4_000_000_000_000) && point_in_bound(t.b, 4_000_000_000_000)
        && point_in_bound(t.c, 4_000_000_000_000)) {
        return false;
    }
    let valid = match RobinsonTriangle::infer_triangle_type(t.a, t.b, t.c) {
        Some(k) => k == t.triangle_type,
        None => false,
    };
    if !valid {
        return false;
    }
    let leg_ab = t.a.distance_to(t.b);
    let leg_cb = t.c.distance_to(t.b);
    crate::geometry::close_scalar(leg_ab, SEED_UNIT)
        && crate::geometry::close_scalar(leg_cb, SEED_UNIT)
}

impl Seed {
    /// Wrap a triangle list as a seed, after checking that every
    /// triangle is a valid unit-scale tile; `None` otherwise.
    pub fn from_triangles(triangles: Vec<RobinsonTriangle>) -> (r: Option<Seed>)
        ensures
            r is Some <==> seed_wf(triangles@),
            r is Some ==> r->Some_0@ == triangles@,
    {
        let mut i: usize = 0;
        while i < triangles.len()
            invariant
                i <= triangles@.len(),
                forall|j: int| 0 <= j < i ==> seed_tri_wf(#[trigger] triangles@[j]),
            decreases triangles@.len() - i,
        {
            if !seed_tri_check(&triangles[i]) {
                return None;
            }
            i += 1;
        }
        Some(Seed { triangles })
    }

    /// Borrow the seed's triangles.
    pub fn triangles(&self) -> (r: &Vec<RobinsonTriangle>)
        ensures
            r@ == self@,
    {
        &self.triangles
    }

    /// How many triangles the seed holds.
    pub fn len(&self) -> (r: usize)
        ensures
            r == self@.len(),
    {
        self.triangles.len()
    }
}

/// Every triangle of a well-formed seed has both legs tolerance-close to
/// one seed unit, and a kind tag that matches its vertices: the
/// guarantee a `Seed` carries for each of the named patterns.
pub proof fn lemma_seed_unit_sides(s: Seq<RobinsonTriangle>, i: int)
    requires
        seed_wf(s),
        0 <= i < s.len(),
    ensures
        spec_close_scalar(sqrt_floor(dist_sq(s[i].a, s[i].b)), SEED_UNIT as int),
        spec_close_scalar(sqrt_floor(dist_sq(s[i].c, s[i].b)), SEED_UNIT as int),
        tri_valid(s[i]),
{
}

/// One point scaled by the fixed-point factor `scale` and translated by
/// `center`.
pub open spec fn spec_transform_point(p: Point, center: Point, scale: int) -> Point {
    mk_point(
        (p.0 * scale) / (SEED_UNIT as int) + center.0,
        (p.1 * scale) / (SEED_UNIT as int) + center.1,
    )
}

/// What transforming a seed yields: every triangle scaled and
/// translated, then re-classified; `None` if any re-classification
/// fails.
pub open spec fn spec_seed_transform(s: Seq<RobinsonTriangle>, center: Point, scale: int)
    -> Option<Seq<RobinsonTriangle>>
    decreases s.len(),
{
    if s.len() == 0 {
        Some(Seq::empty())
    } else {
        let t = s[0];
        let t1 = spec_new(
            spec_transform_point(t.a, center, scale),
            spec_transform_point(t.b, center, scale),
            spec_transform_point(t.c, center, scale),
        );
        match (t1, spec_seed_transform(s.drop_first(), center, scale)) {
            (Some(h), Some(rest)) => Some(seq![h] + rest),
            _ => None,
        }
    }
}

impl Seed {
    /// Scale every triangle so one seed unit spans `scale` working
    /// coordinate units, and translate by `center`, consuming the seed.  Each result
    /// triangle is re-classified as a self-check; `None` reports a
    /// failure, which well-formed seeds do not produce.
    pub fn transform(self, center: Point, scale: i64) -> (r: Option<Vec<RobinsonTriangle>>)
        requires
            seed_wf(self@),
            point_within(center, 1_000_000_000_000),
            1 <= scale <= 1_000_000_000_000,
        ensures
            r is Some <==> spec_seed_transform(self@, center, scale as int) is Some,
            r is Some ==> r->Some_0@ == spec_seed_transform(self@, center, scale as int)->Some_0,
            r is Some ==> all_bounded(r->Some_0@),
    {
        let ghost s = self@;
        let mut out: Vec<RobinsonTriangle> = Vec::new();
        let mut i: usize = 0;
        proof {
            assert(s.skip(0) =~= s);
            if spec_seed_transform(s, center, scale as int) is Some {
                let rest = spec_seed_transform(s, center, scale as int)->Some_0;
                assert(Seq::<RobinsonTriangle>::empty() + rest =~= rest);
            }
        }
        let n = self.triangles.len();
        while i < n
            invariant
                i <= n,
                n == s.len(),
                s == self@,
                seed_wf(s),
                point_within(center, 1_000_000_000_000),
                1 <= scale <= 1_000_000_000_000,
                all_bounded(out@),
                match spec_seed_transform(s.skip(i as int), center, scale as int) {
                    Some(rest) => spec_seed_transform(s, center, scale as int)
                        == Some(out@ + rest),
                    None => spec_seed_transform(s, center, scale as int) is None,
                },
            decreases n - i,
        {
            let ghost suf = s.skip(i as int);
            proof {
                assert(suf[0] == s[i as int]);
                assert(suf.drop_first() =~= s.skip(i as int + 1));
                assert(seed_tri_wf(s[i as int]));
            }
            let t = self.triangles[i];
            let a = transform_point(t.a, center, scale);
            let b = transform_point(t.b, center, scale);
            let c = transform_point(t.c, center, scale);
            match RobinsonTriangle::new(a, b, c) {
                Some(h) => {
                    let ghost prev = out@;
                    out.push(h);
                    proof {
                        if spec_seed_transform(s.skip(i as int + 1), center, scale as int)
                            is Some {
                            let rest2 = spec_seed_transform(
                                s.skip(i as int + 1), center, scale as int)->Some_0;
                            assert(spec_seed_transform(suf, center, scale as int)
                                == Some(seq![h] + rest2));
                            assert(prev + (seq![h] + rest2) =~= out@ + rest2);
                        }
                    }
                }
                None => {
                    proof {
                        assert(spec_seed_transform(suf, center, scale as int) is None);
                    }
                    return None;
                }
            }
            i += 1;
        }
        proof {
            assert(s.skip(n as int) =~= Seq::<RobinsonTriangle>::empty());
            assert(out@ + Seq::<RobinsonTriangle>::empty() =~= out@);
        }
        Some(out)
    }
}

/// One seed point scaled and translated, executably.
fn transform_point(p: Point, center: Point, scale: i64) -> (r: Point)
    requires
        point_within(p, 4_000_000_000_000),
        point_within(center, 1_000_000_000_000),
        1 <= scale <= 1_000_000_000_000,
    ensures
        r == spec_transform_point(p, center, scale as int),
        point_within(r, 50_000_000_000_000),
        point_ok(r),
{
    proof {
        lemma_scale_component(p.0 as int, scale as int);
        lemma_scale_component(p.1 as int, scale as int);
    }
    let x = (floor_div((p.0 as i128) * (scale as i128), SEED_UNIT as i128) as i64) + center.0;
    let y = (floor_div((p.1 as i128) * (scale as i128), SEED_UNIT as i128) as i64) + center.1;
    Point(x, y)
}

/// One scaled seed-range coordinate stays within 4e12.
proof fn lemma_scale_component(x: int, scale: int)
    requires
        -4_000_000_000_000 <= x <= 4_000_000_000_000,
        1 <= scale <= 1_000_000_000_000,
    ensures
        -4_000_000_000_001 <= (x * scale) / (SEED_UNIT as int) <= 4_000_000_000_000,
        -4000000000000000000000000 <= x * scale <= 4000000000000000000000000,
{
    let m = 4000000000000000000000000int;
    assert(-(4_000_000_000_000 * scale) <= x * scale <= 4_000_000_000_000 * scale)
        by (nonlinear_arith)
        requires -4_000_000_000_000 <= x <= 4_000_000_000_000, 0 <= scale;
    assert(4_000_000_000_000 * scale <= m);
    assert(-m <= x * scale <= m);
    vstd::arithmetic::div_mod::lemma_div_is_ordered(x * scale, m, SEED_UNIT as int);
    vstd::arithmetic::div_mod::lemma_div_is_ordered(-m, x * scale, SEED_UNIT as int);
    assert(m / (SEED_UNIT as int) == 4_000_000_000_000int);
    assert((-m) / (SEED_UNIT as int) == -4_000_000_000_000int) by {
        vstd::arithmetic::div_mod::lemma_fundamental_div_mod_converse(
            -m, SEED_UNIT as int, -4_000_000_000_000, 0);
    }
}

/// The rose's first sector: four triangles above the axis — the inner
/// and outer petal halves and two leaves — and their mirror images
/// below it.
#[verifier::opaque]
pub open spec fn spec_rose_sector() -> Option<Seq<RobinsonTriangle>> {
    let zero = Point(0, 0);
    let p1 = Point(SEED_UNIT, 0);
    let p2 = Point(GOLDEN_UNIT, 0);
    let p3 = spec_add_points(p2, spec_rot_point(p1, 36));
    let p4 = spec_rot_point(p2, 36);
    let p5 = spec_rot_point(spec_add_points(p2, p1), 36);
    match (
        spec_new(p4, p1, zero),
        spec_new(p1, p4, p2),
        spec_new(p5, p4, p2),
        spec_new(p5, p3, p2),
    ) {
        (Some(t1), Some(t2), Some(t3), Some(t4)) => {
            match (
                spec_mirror_y_tri(t1),
                spec_mirror_y_tri(t2),
                spec_mirror_y_tri(t3),
                spec_mirror_y_tri(t4),
            ) {
                (Some(m1), Some(m2), Some(m3), Some(m4)) =>
                    Some(seq![t1, t2, t3, t4, m1, m2, m3, m4]),
                _ => None,
            }
        }
        _ => None,
    }
}

/// Every triangle of `sector` rotated by `angle` degrees, in order.
#[verifier::opaque]
pub open spec fn spec_rotated_copies(sector: Seq<RobinsonTriangle>, angle: int)
    -> Option<Seq<RobinsonTriangle>>
    decreases sector.len(),
{
    if sector.len() == 0 {
        Some(Seq::empty())
    } else {
        match (
            spec_rotate_tri(sector[0], angle),
            spec_rotated_copies(sector.drop_first(), angle),
        ) {
            (Some(h), Some(rest)) => Some(seq![h] + rest),
            _ => None,
        }
    }
}

/// The rotated copies of the first sector, for turn indices `k` to 4.
#[verifier::opaque]
pub open spec fn spec_rose_rotations(sector: Seq<RobinsonTriangle>, k: int)
    -> Option<Seq<RobinsonTriangle>>
    decreases 5 - k,
{
    if k >= 5 {
        Some(Seq::empty())
    } else {
        match (
            spec_rotated_copies(sector, 72 * k),
            spec_rose_rotations(sector, k + 1),
        ) {
            (Some(h), Some(rest)) => Some(h + rest),
            _ => None,
        }
    }
}

/// The rose's triangles: the first sector, then its copies through four
/// more turns of 72 degrees.
pub open spec fn spec_rose_triangles() -> Option<Seq<RobinsonTriangle>> {
    match spec_rose_sector() {
        Some(sector) => match spec_rose_rotations(sector, 1) {
            Some(rots) => Some(sector + rots),
            None => None,
        },
        None => None,
    }
}

/// What `rose` returns: its triangles, provided they pass the seed
/// well-formedness check.
pub open spec fn spec_rose() -> Option<Seq<RobinsonTriangle>> {
    match spec_rose_triangles() {
        Some(s) => if seed_wf(s) { Some(s) } else { None },
        None => None,
    }
}

/// The rose: five sectors of eight triangles each, an inner ring of
/// petals surrounded by leaves; `None` if any construction step fails
/// its classification self-check, which none does in practice.
#[verifier::rlimit(100)]
pub fn rose() -> (r: Option<Seed>)
    ensures
        r is Some <==> spec_rose() is Some,
        r is Some ==> r->Some_0@ == spec_rose()->Some_0,
        r is Some ==> seed_wf(r->Some_0@),
        r is Some ==> r->Some_0@.len() == 40,
{
    let zero = Point(0, 0);
    let p1 = Point(SEED_UNIT, 0);
    let p2 = Point(GOLDEN_UNIT, 0);
    let p3 = p2.add(p1.rotate(36));
    let p4 = p2.rotate(36);
    let p5 = p2.add(p1).rotate(36);
    let t1 = match RobinsonTriangle::new(p4, p1, zero) {
        Some(t) => t,
        None => {
            proof { reveal(spec_rose_sector); }
            return None;
        }
    };
    let t2 = match RobinsonTriangle::new(p1, p4, p2) {
        Some(t) => t,
        None => {
            proof { reveal(spec_rose_sector); }
            return None;
        }
    };
    let t3 = match RobinsonTriangle::new(p5, p4, p2) {
        Some(t) => t,
        None => {
            proof { reveal(spec_rose_sector); }
            return None;
        }
    };
    let t4 = match RobinsonTriangle::new(p5, p3, p2) {
        Some(t) => t,
        None => {
            proof { reveal(spec_rose_sector); }
            return None;
        }
    };
    let m1 = match t1.mirror_y() {
        Some(m) => m,
        None => {
            proof { reveal(spec_rose_sector); }
            return None;
        }
    };
    let m2 = match t2.mirror_y() {
        Some(m) => m,
        None => {
            proof { reveal(spec_rose_sector); }
            return None;
        }
    };
    let m3 = match t3.mirror_y() {
        Some(m) => m,
        None => {
            proof { reveal(spec_rose_sector); }
            return None;
        }
    };
    let m4 = match t4.mirror_y() {
        Some(m) => m,
        None => {
            proof { reveal(spec_rose_sector); }
            return None;
        }
    };
    let mut sector: Vec<RobinsonTriangle> = Vec::new();
    sector.push(t1);
    sector.push(t2);
    sector.push(t3);
    sector.push(t4);
    sector.push(m1);
    sector.push(m2);
    sector.push(m3);
    sector.push(m4);
    proof {
        reveal(spec_rose_sector);
        assert(sector@ =~= seq![t1, t2, t3, t4, m1, m2, m3, m4]);
        assert(spec_rose_sector() == Some(sector@));
    }
    let mut all: Vec<RobinsonTriangle> = Vec::new();
    let mut j: usize = 0;
    while j < sector.len()
        invariant
            j <= sector@.len(),
            sector@.len() == 8,
            all@ =~= sector@.subrange(0, j as int),
        decreases sector@.len() - j,
    {
        all.push(sector[j]);
        j += 1;
    }
    proof {
        assert(all@ =~= sector@);
        assert(all@.skip(8) =~= Seq::<RobinsonTriangle>::empty());
        if spec_rose_rotations(sector@, 1) is Some {
            assert(Seq::<RobinsonTriangle>::empty()
                + spec_rose_rotations(sector@, 1)->Some_0
                =~= spec_rose_rotations(sector@, 1)->Some_0);
        }
    }
    let mut k: u64 = 1;
    while k < 5
        invariant
            1 <= k <= 5,
            sector@.len() == 8,
            all@.len() == 8 * k,
            all@.subrange(0, 8) =~= sector@,
            forall|x: int| 0 <= x < sector@.len()
                ==> tri_within(#[trigger] sector@[x], 10_000_000_000_000),
            spec_rose_sector() == Some(sector@),
            match spec_rose_rotations(sector@, 1) {
                Some(rots) => spec_rose_triangles() == Some(sector@ + rots),
                None => spec_rose_triangles() is None,
            },
            match spec_rose_rotations(sector@, k as int) {
                Some(rest) => spec_rose_rotations(sector@, 1)
                    == Some(all@.skip(8) + rest),
                None => spec_rose_rotations(sector@, 1) is None,
            },
        decreases 5 - k,
    {
        let angle: i64 = 72 * (k as i64);
        proof {
            assert(angle == 36 * (2 * k));
            assert(angle % 36 == 0) by {
                vstd::arithmetic::div_mod::lemma_mod_multiples_basic(
                    2 * k as int, 36);
                assert(36 * (2 * k as int) == (2 * k as int) * 36);
            }
        }
        let mut round: Vec<RobinsonTriangle> = Vec::new();
        let mut m: usize = 0;
        proof {
            assert(sector@.skip(0) =~= sector@);
            if spec_rotated_copies(sector@, angle as int) is Some {
                assert(Seq::<RobinsonTriangle>::empty()
                    + spec_rotated_copies(sector@, angle as int)->Some_0
                    =~= spec_rotated_copies(sector@, angle as int)->Some_0);
            }
        }
        while m < sector.len()
            invariant
                m <= sector@.len(),
                sector@.len() == 8,
                1 <= k < 5,
                angle == 72 * (k as int),
                angle % 36 == 0,
                0 <= angle <= 1_000_000_000,
                round@.len() == m,
                forall|x: int| 0 <= x < sector@.len()
                    ==> tri_within(#[trigger] sector@[x], 10_000_000_000_000),
                spec_rose_sector() == Some(sector@),
                match spec_rose_rotations(sector@, 1) {
                    Some(rots) => spec_rose_triangles() == Some(sector@ + rots),
                    None => spec_rose_triangles() is None,
                },
                match spec_rose_rotations(sector@, k as int) {
                    Some(rest) => spec_rose_rotations(sector@, 1)
                        == Some(all@.skip(8) + rest),
                    None => spec_rose_rotations(sector@, 1) is None,
                },
                match spec_rotated_copies(sector@.skip(m as int), angle as int) {
                    Some(rest) => spec_rotated_copies(sector@, angle as int)
                        == Some(round@ + rest),
                    None => spec_rotated_copies(sector@, angle as int) is None,
                },
            decreases sector@.len() - m,
        {
            let ghost suf = sector@.skip(m as int);
            proof {
                assert(suf[0] == sector@[m as int]);
                assert(suf.drop_first() =~= sector@.skip(m as int + 1));
            }
            match sector[m].rotate(angle) {
                Some(rt) => {
                    let ghost prev = round@;
                    round.push(rt);
                    proof {
                        reveal(spec_rotated_copies);
                        if spec_rotated_copies(sector@.skip(m as int + 1), angle as int)
                            is Some {
                            let rest2 = spec_rotated_copies(
                                sector@.skip(m as int + 1), angle as int)->Some_0;
                            assert(spec_rotated_copies(suf, angle as int)
                                == Some(seq![rt] + rest2));
                            assert(prev + (seq![rt] + rest2) =~= round@ + rest2);
                        }
                    }
                }
                None => {
                    proof {
                        reveal(spec_rotated_copies);
                        assert(spec_rotated_copies(suf, angle as int) is None);
                        reveal(spec_rose_rotations);
                        assert(spec_rose_rotations(sector@, k as int) is None);
                    }
                    return None;
                }
            }
            m += 1;
        }
        let ghost prev_tail = all@.skip(8);
        let ghost round_s = round@;
        proof {
            reveal(spec_rotated_copies);
            assert(sector@.skip(sector@.len() as int) =~= Seq::<RobinsonTriangle>::empty());
            assert(round@ + Seq::<RobinsonTriangle>::empty() =~= round@);
            assert(spec_rotated_copies(sector@, angle as int) == Some(round@));
        }
        all.append(&mut round);
        proof {
            assert(all@.skip(8) =~= prev_tail + round_s);
            assert(all@.subrange(0, 8) =~= sector@);
            reveal(spec_rose_rotations);
            if spec_rose_rotations(sector@, k as int + 1) is Some {
                let rest2 = spec_rose_rotations(sector@, k as int + 1)->Some_0;
                assert(spec_rose_rotations(sector@, k as int)
                    == Some(round_s + rest2));
                assert(prev_tail + (round_s + rest2) =~= (prev_tail + round_s) + rest2);
            }
        }
        k += 1;
    }
    proof {
        reveal(spec_rose_rotations);
        assert(spec_rose_rotations(sector@, 5) == Some(Seq::<RobinsonTriangle>::empty()));
        assert(all@.skip(8) + Seq::<RobinsonTriangle>::empty() =~= all@.skip(8));
        assert(sector@ + all@.skip(8) =~= all@);
        assert(spec_rose_triangles() == Some(all@));
    }
    Seed::from_triangles(all)
}

/// The single-rhombus seed of the requested kind: two `from_base`
/// halves over a shared base of the kind's unit-leg proportion,
/// provided they pass the seed well-formedness check.
pub open spec fn spec_rhombus(rhombus_type: TileType) -> Option<Seq<RobinsonTriangle>> {
    let half: int = if rhombus_type == TileType::SmallRhombus {
        SMALL_HALF_BASE as int
    } else {
        LARGE_HALF_BASE as int
    };
    let left = mk_point(-half, 0);
    let right = mk_point(half, 0);
    let t1 = spec_from_base(left, right, rhombus_type, true);
    let t2 = spec_from_base(left, right, rhombus_type, false);
    if seed_wf(seq![t1, t2]) {
        Some(seq![t1, t2])
    } else {
        None
    }
}

/// A single rhombus of the requested kind, split into its two triangle
/// halves over a shared base of the kind's unit-leg proportion.
pub fn rhombus(rhombus_type: TileType) -> (r: Option<Seed>)
    requires
        rhombus_type == TileType::SmallRhombus || rhombus_type == TileType::LargeRhombus,
    ensures
        r is Some <==> spec_rhombus(rhombus_type) is Some,
        r is Some ==> r->Some_0@ == spec_rhombus(rhombus_type)->Some_0,
        r is Some ==> seed_wf(r->Some_0@),
        r is Some ==> r->Some_0@.len() == 2,
{
    let half: i64 = if let TileType::SmallRhombus = rhombus_type {
        SMALL_HALF_BASE
    } else {
        LARGE_HALF_BASE
    };
    let left = Point(-half, 0);
    let right = Point(half, 0);
    let t1 = RobinsonTriangle::from_base(left, right, rhombus_type, true);
    let t2 = RobinsonTriangle::from_base(left, right, rhombus_type, false);
    let mut v: Vec<RobinsonTriangle> = Vec::new();
    v.push(t1);
    v.push(t2);
    proof {
        assert(v@ =~= seq![t1, t2]);
    }
    Seed::from_triangles(v)
}

/// The rotated copies of the pizza's two lead triangles, for turn
/// indices `k` to 4.
#[verifier::opaque]
pub open spec fn spec_pizza_rotations(t1: RobinsonTriangle, t2: RobinsonTriangle, k: int)
    -> Option<Seq<RobinsonTriangle>>
    decreases 5 - k,
{
    if k >= 5 {
        Some(Seq::empty())
    } else {
        match (
            spec_rotate_tri(t1, 72 * k),
            spec_rotate_tri(t2, 72 * k),
            spec_pizza_rotations(t1, t2, k + 1),
        ) {
            (Some(a), Some(b), Some(rest)) => Some(seq![a, b] + rest),
            _ => None,
        }
    }
}

/// The pizza's triangles: two lead triangles over the first sector,
/// then their rotated copies through four more turns of 72 degrees.
pub open spec fn spec_pizza_triangles() -> Option<Seq<RobinsonTriangle>> {
    let zero = Point(0, 0);
    let p1 = Point(SEED_UNIT, 0);
    let p2 = spec_rot_point(p1, 36);
    let p3 = spec_rot_point(p1, 72);
    match (spec_new(p1, zero, p2), spec_new(p3, zero, p2)) {
        (Some(t1), Some(t2)) => {
            match spec_pizza_rotations(t1, t2, 1) {
                Some(rest) => Some(seq![t1, t2] + rest),
                None => None,
            }
        }
        _ => None,
    }
}

/// What `pizza` returns: its triangles, provided they pass the seed
/// well-formedness check.
pub open spec fn spec_pizza() -> Option<Seq<RobinsonTriangle>> {
    match spec_pizza_triangles() {
        Some(s) => if seed_wf(s) { Some(s) } else { None },
        None => None,
    }
}

/// The pizza: ten unit triangles fanned around the origin; `None` if
/// any construction step fails its classification self-check, which
/// none does in practice.
#[verifier::rlimit(100)]
pub fn pizza() -> (r: Option<Seed>)
    ensures
        r is Some <==> spec_pizza() is Some,
        r is Some ==> r->Some_0@ == spec_pizza()->Some_0,
        r is Some ==> seed_wf(r->Some_0@),
        r is Some ==> r->Some_0@.len() == 10,
{
    let zero = Point(0, 0);
    let p1 = Point(SEED_UNIT, 0);
    let p2 = p1.rotate(36);
    let p3 = p1.rotate(72);
    let t1 = match RobinsonTriangle::new(p1, zero, p2) {
        Some(t) => t,
        None => { return None; }
    };
    let t2 = match RobinsonTriangle::new(p3, zero, p2) {
        Some(t) => t,
        None => { return None; }
    };
    let mut triangles: Vec<RobinsonTriangle> = Vec::new();
    triangles.push(t1);
    triangles.push(t2);
    proof {
        assert(triangles@.skip(2) =~= Seq::<RobinsonTriangle>::empty());
        if spec_pizza_rotations(t1, t2, 1) is Some {
            assert(Seq::<RobinsonTriangle>::empty()
                + spec_pizza_rotations(t1, t2, 1)->Some_0
                =~= spec_pizza_rotations(t1, t2, 1)->Some_0);
        }
    }
    let mut k: u64 = 1;
    while k < 5
        invariant
            1 <= k <= 5,
            triangles@.len() == 2 * k,
            triangles@[0] == t1,
            triangles@[1] == t2,
            tri_within(t1, 10_000_000_000_000),
            tri_within(t2, 10_000_000_000_000),
            match spec_pizza_rotations(t1, t2, 1) {
                Some(rots) => spec_pizza_triangles() == Some(seq![t1, t2] + rots),
                None => spec_pizza_triangles() is None,
            },
            match spec_pizza_rotations(t1, t2, k as int) {
                Some(rest) => spec_pizza_rotations(t1, t2, 1)
                    == Some(triangles@.skip(2) + rest),
                None => spec_pizza_rotations(t1, t2, 1) is None,
            },
        decreases 5 - k,
    {
        let angle: i64 = 72 * (k as i64);
        proof {
            assert(angle == 36 * (2 * k));
            assert(angle % 36 == 0) by {
                vstd::arithmetic::div_mod::lemma_mod_multiples_basic(
                    2 * k as int, 36);
                assert(36 * (2 * k as int) == (2 * k as int) * 36);
            }
        }
        let ghost acc = triangles@.skip(2);
        let first = triangles[0];
        let second = triangles[1];
        let ra = match first.rotate(angle) {
            Some(rt) => rt,
            None => {
                proof {
                    reveal(spec_pizza_rotations);
                    assert(spec_pizza_rotations(t1, t2, k as int) is None);
                }
                return None;
            }
        };
        let rb = match second.rotate(angle) {
            Some(rt) => rt,
            None => {
                proof {
                    reveal(spec_pizza_rotations);
                    assert(spec_pizza_rotations(t1, t2, k as int) is None);
                }
                return None;
            }
        };
        triangles.push(ra);
        triangles.push(rb);
        proof {
            reveal(spec_pizza_rotations);
            if spec_pizza_rotations(t1, t2, k as int + 1) is Some {
                let rest2 = spec_pizza_rotations(t1, t2, k as int + 1)->Some_0;
                assert(spec_pizza_rotations(t1, t2, k as int)
                    == Some(seq![ra, rb] + rest2));
                assert(acc + (seq![ra, rb] + rest2) =~= triangles@.skip(2) + rest2);
            }
        }
        k += 1;
    }
    proof {
        reveal(spec_pizza_rotations);
        assert(spec_pizza_rotations(t1, t2, 5) == Some(Seq::<RobinsonTriangle>::empty()));
        assert(triangles@.skip(2) + Seq::<RobinsonTriangle>::empty() =~= triangles@.skip(2));
        assert(seq![t1, t2] + triangles@.skip(2) =~= triangles@);
        assert(spec_pizza_triangles() == Some(triangles@));
    }
    Seed::from_triangles(triangles)
}

/// Every named seed pattern, in a fixed order: the rose, the large and
/// small rhombi, and the pizza.
pub fn get_all_seeds() -> (r: Option<Vec<Seed>>)
    ensures
        r is Some <==> spec_rose() is Some && spec_rhombus(TileType::LargeRhombus) is Some
            && spec_rhombus(TileType::SmallRhombus) is Some && spec_pizza() is Some,
        r is Some ==> r->Some_0@.len() == 4,
        r is Some ==> r->Some_0@[0]@ == spec_rose()->Some_0,
        r is Some ==> r->Some_0@[1]@ == spec_rhombus(TileType::LargeRhombus)->Some_0,
        r is Some ==> r->Some_0@[2]@ == spec_rhombus(TileType::SmallRhombus)->Some_0,
        r is Some ==> r->Some_0@[3]@ == spec_pizza()->Some_0,
        r is Some ==> forall|i: int| 0 <= i < 4 ==> seed_wf(#[trigger] r->Some_0@[i]@),
{
    let s1 = match rose() {
        Some(s) => s,
        None => { return None; }
    };
    let s2 = match rhombus(TileType::LargeRhombus) {
        Some(s) => s,
        None => { return None; }
    };
    let s3 = match rhombus(TileType::SmallRhombus) {
        Some(s) => s,
        None => { return None; }
    };
    let s4 = match pizza() {
        Some(s) => s,
        None => { return None; }
    };
    let mut v: Vec<Seed> = Vec::new();
    v.push(s1);
    v.push(s2);
    v.push(s3);
    v.push(s4);
    Some(v)
}

} // verus!
