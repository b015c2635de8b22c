//! The decomposition ("inflation") engine and the pair-merging engine.
//!
//! Decomposition applies the substitution rule to every triangle for a
//! number of generations.  Merging reconstructs rhombi from triangle
//! pairs that share a base, keyed by the base midpoint: a sort-based
//! baseline, and a spatial-hashing variant that falls back to the
//! baseline for the pairs the grid discretization misses.
//!
//! A classification failure anywhere — geometry whose side ratios fit no
//! tile kind, or a grid collision between unrelated triangles — is an
//! unrecoverable fault of the input geometry; these functions then
//! return `None` rather than a partial result.

use vstd::prelude::*;
use vstd::arithmetic::div_mod::{
    lemma_div_is_ordered, lemma_div_multiples_vanish,
};
use crate::geometry::{
    close, dist_sq, mk_point, spec_close_point, spec_compare, spec_new,
    tri_valid, tri_within,
    Point, Quadrilateral, RobinsonTriangle, TileType,
    PHI_INVERSE, RATIO_SCALE,
};
use crate::num::{floor_div, sqrt_floor};
use core::cmp::Ordering;
use std::collections::HashMap;

verus! {

/// Division of a fixed-point coordinate offset by the golden ratio:
/// multiplication by the inverse ratio constant.
pub open spec fn spec_div_phi(d: int) -> int {
    (d * (PHI_INVERSE as int)) / (RATIO_SCALE as int)
}

/// `spec_div_phi`, executably; the result lies between 0 and `d`.
fn div_phi(d: i64) -> (r: i64)
    requires
        -200_000_000_000_000 <= d <= 200_000_000_000_000,
    ensures
        r as int == spec_div_phi(d as int),
        d >= 0 ==> 0 <= r <= d,
        d < 0 ==> d <= r <= 0,
{
    proof {
        lemma_div_phi_range(d as int);
    }
    floor_div((d as i128) * (PHI_INVERSE as i128), RATIO_SCALE as i128) as i64
}

proof fn lemma_div_phi_range(d: int)
    requires
        -200_000_000_000_000 <= d <= 200_000_000_000_000,
    ensures
        d >= 0 ==> 0 <= spec_div_phi(d) <= d,
        d < 0 ==> d <= spec_div_phi(d) <= 0,
        -200000000000000000000000000 <= d * (PHI_INVERSE as int) <= 200000000000000000000000000,
{
    let pi = PHI_INVERSE as int;
    let rs = RATIO_SCALE as int;
    assert(-200000000000000000000000000 <= d * pi <= 200000000000000000000000000)
        by (nonlinear_arith)
        requires -200_000_000_000_000 <= d <= 200_000_000_000_000,
            pi == 618_033_988_750int;
    if d >= 0 {
        assert(0 <= d * pi <= d * rs) by (nonlinear_arith)
            requires 0 <= d, 0 < pi <= rs;
        lemma_div_is_ordered(0, d * pi, rs);
        lemma_div_is_ordered(d * pi, d * rs, rs);
        assert((d * rs) / rs == d) by {
            assert(d * rs == rs * d) by (nonlinear_arith);
            lemma_div_multiples_vanish(d, rs);
        }
    } else {
        assert(d * rs <= d * pi <= 0) by (nonlinear_arith)
            requires d < 0, 0 < pi <= rs;
        lemma_div_is_ordered(d * rs, d * pi, rs);
        lemma_div_is_ordered(d * pi, 0, rs);
        assert((d * rs) / rs == d) by {
            assert(d * rs == rs * d) by (nonlinear_arith);
            lemma_div_multiples_vanish(d, rs);
        }
    }
}

/// The quadrilateral fused from the triangle `cur` and a partner `other`
/// that shares its base: the shared base endpoints and both apexes.
pub open spec fn spec_fuse(cur: RobinsonTriangle, other: RobinsonTriangle) -> Quadrilateral {
    Quadrilateral { a: cur.a, b: cur.b, c: cur.c, d: other.b }
}

/// What decomposing one triangle yields.  A small triangle splits into a
/// small and a large one; a large triangle into two large and a small
/// one, the new vertices cutting the sides at the inverse golden ratio.
/// `None` when a child fails to classify as the kind the rule predicts,
/// which well-formed geometry never produces, or for the kite and dart
/// kinds, which this engine does not subdivide.
#[verifier::opaque]
pub open spec fn spec_decompose(t: RobinsonTriangle) -> Option<Seq<RobinsonTriangle>> {
    match t.triangle_type {
        TileType::SmallRhombus => {
            let d = mk_point(
                t.b.0 + spec_div_phi(t.a.0 - t.b.0),
                t.b.1 + spec_div_phi(t.a.1 - t.b.1),
            );
            match (spec_new(d, t.c, t.a), spec_new(t.c, d, t.b)) {
                (Some(t1), Some(t2)) => {
                    if t1.triangle_type == TileType::SmallRhombus
                        && t2.triangle_type == TileType::LargeRhombus {
                        Some(seq![t1, t2])
                    } else {
                        None
                    }
                }
                _ => None,
            }
        }
        TileType::LargeRhombus => {
            let d = mk_point(
                t.a.0 + spec_div_phi(t.b.0 - t.a.0),
                t.a.1 + spec_div_phi(t.b.1 - t.a.1),
            );
            let e = mk_point(
                t.a.0 + spec_div_phi(t.c.0 - t.a.0),
                t.a.1 + spec_div_phi(t.c.1 - t.a.1),
            );
            match (spec_new(e, d, t.a), spec_new(t.c, e, t.b), spec_new(d, e, t.b)) {
                (Some(t1), Some(t2), Some(t3)) => {
                    if t1.triangle_type == TileType::LargeRhombus
                        && t2.triangle_type == TileType::LargeRhombus
                        && t3.triangle_type == TileType::SmallRhombus {
                        Some(seq![t1, t2, t3])
                    } else {
                        None
                    }
                }
                _ => None,
            }
        }
        _ => None,
    }
}

/// The triangle bound every tiling entry point works under.
pub open spec fn tri_bounded(t: RobinsonTriangle) -> bool {
    tri_within(t, 50_000_000_000_000)
}

/// Decompose one triangle by the substitution rule, re-classifying each
/// child as a self-check.
pub fn decompose(t: &RobinsonTriangle) -> (r: Option<Vec<RobinsonTriangle>>)
    requires
        tri_bounded(*t),
    ensures
        r is Some <==> spec_decompose(*t) is Some,
        r is Some ==> r->Some_0@ == spec_decompose(*t)->Some_0,
        r is Some ==> forall|i: int| 0 <= i < r->Some_0@.len()
            ==> tri_bounded(#[trigger] r->Some_0@[i]) && tri_valid(r->Some_0@[i]),
{
    proof {
        reveal(spec_decompose);
    }
    match t.triangle_type {
        TileType::SmallRhombus => {
            let d = Point(
                t.b.0 + div_phi(t.a.0 - t.b.0),
                t.b.1 + div_phi(t.a.1 - t.b.1),
            );
            let t1 = RobinsonTriangle::new(d, t.c, t.a);
            let t2 = RobinsonTriangle::new(t.c, d, t.b);
            match (t1, t2) {
                (Some(t1), Some(t2)) => {
                    if t1.triangle_type == TileType::SmallRhombus
                        && t2.triangle_type == TileType::LargeRhombus {
                        let mut v: Vec<RobinsonTriangle> = Vec::new();
                        v.push(t1);
                        v.push(t2);
                        proof {
                            assert(v@ =~= spec_decompose(*t)->Some_0);
                        }
                        Some(v)
                    } else {
                        None
                    }
                }
                _ => None,
            }
        }
        TileType::LargeRhombus => {
            let d = Point(
                t.a.0 + div_phi(t.b.0 - t.a.0),
                t.a.1 + div_phi(t.b.1 - t.a.1),
            );
            let e = Point(
                t.a.0 + div_phi(t.c.0 - t.a.0),
                t.a.1 + div_phi(t.c.1 - t.a.1),
            );
            let t1 = RobinsonTriangle::new(e, d, t.a);
            let t2 = RobinsonTriangle::new(t.c, e, t.b);
            let t3 = RobinsonTriangle::new(d, e, t.b);
            match (t1, t2, t3) {
                (Some(t1), Some(t2), Some(t3)) => {
                    if t1.triangle_type == TileType::LargeRhombus
                        && t2.triangle_type == TileType::LargeRhombus
                        && t3.triangle_type == TileType::SmallRhombus {
                        let mut v: Vec<RobinsonTriangle> = Vec::new();
                        v.push(t1);
                        v.push(t2);
                        v.push(t3);
                        proof {
                            assert(v@ =~= spec_decompose(*t)->Some_0);
                        }
                        Some(v)
                    } else {
                        None
                    }
                }
                _ => None,
            }
        }
        _ => None,
    }
}

/// Decomposing a whole set: every triangle's children, in order; `None`
/// as soon as any triangle fails.
pub open spec fn spec_decompose_all(s: Seq<RobinsonTriangle>) -> Option<Seq<RobinsonTriangle>>
    decreases s.len(),
{
    if s.len() == 0 {
        Some(Seq::empty())
    } else {
        match (spec_decompose(s[0]), spec_decompose_all(s.drop_first())) {
            (Some(h), Some(rest)) => Some(h + rest),
            _ => None,
        }
    }
}

/// The result of `num_generations` rounds of decomposition; generation
/// zero is the unmodified input.
pub open spec fn spec_tiling(s: Seq<RobinsonTriangle>, n: nat) -> Option<Seq<RobinsonTriangle>>
    decreases n,
{
    if n == 0 {
        Some(s)
    } else {
        match spec_decompose_all(s) {
            Some(s1) => spec_tiling(s1, (n - 1) as nat),
            None => None,
        }
    }
}

/// All triangles of a sequence are within the engine's working bound.
pub open spec fn all_bounded(s: Seq<RobinsonTriangle>) -> bool {
    forall|i: int| 0 <= i < s.len() ==> tri_bounded(#[trigger] s[i])
}

/// Apply the substitution rule to every triangle, `num_generations`
/// times over.  `None` reports a classification failure in some
/// generation; generation zero returns the seed unchanged.
#[verifier::rlimit(100)]
pub fn generate_tiling(seed: Vec<RobinsonTriangle>, num_generations: u64)
    -> (r: Option<Vec<RobinsonTriangle>>)
    requires
        all_bounded(seed@),
    ensures
        r is Some <==> spec_tiling(seed@, num_generations as nat) is Some,
        r is Some ==> r->Some_0@ == spec_tiling(seed@, num_generations as nat)->Some_0,
        r is Some ==> all_bounded(r->Some_0@),
        r is Some && num_generations > 0 ==> forall|i: int|
            0 <= i < r->Some_0@.len() ==> tri_valid(#[trigger] r->Some_0@[i]),
{
    let mut triangles = seed;
    let mut g: u64 = 0;
    while g < num_generations
        invariant
            g <= num_generations,
            all_bounded(triangles@),
            g > 0 ==> forall|j: int| 0 <= j < triangles@.len()
                ==> tri_valid(#[trigger] triangles@[j]),
            spec_tiling(seed@, num_generations as nat) == spec_tiling(triangles@, (num_generations - g) as nat),
        decreases num_generations - g,
    {
        let mut next: Vec<RobinsonTriangle> = Vec::new();
        let mut i: usize = 0;
        proof {
            assert(triangles@.skip(0) =~= triangles@);
            if spec_decompose_all(triangles@) is Some {
                let rest = spec_decompose_all(triangles@)->Some_0;
                assert(Seq::<RobinsonTriangle>::empty() + rest =~= rest);
            }
        }
        while i < triangles.len()
            invariant
                i <= triangles.len(),
                g < num_generations,
                spec_tiling(seed@, num_generations as nat)
                    == spec_tiling(triangles@, (num_generations - g) as nat),
                all_bounded(triangles@),
                all_bounded(next@),
                forall|j: int| 0 <= j < next@.len() ==> tri_valid(#[trigger] next@[j]),
                match spec_decompose_all(triangles@.skip(i as int)) {
                    Some(rest) => spec_decompose_all(triangles@) == Some(next@ + rest),
                    None => spec_decompose_all(triangles@) is None,
                },
            decreases triangles.len() - i,
        {
            let ghost pre = triangles@.skip(i as int);
            proof {
                assert(pre[0] == triangles@[i as int]);
                assert(pre.drop_first() =~= triangles@.skip(i as int + 1));
            }
            match decompose(&triangles[i]) {
                Some(mut v) => {
                    let ghost prev_next = next@;
                    let ghost children = v@;
                    next.append(&mut v);
                    proof {
                        assert(next@ == prev_next + children);
                        if spec_decompose_all(triangles@.skip(i as int + 1)) is Some {
                            let rest2 = spec_decompose_all(triangles@.skip(i as int + 1))->Some_0;
                            assert(spec_decompose_all(pre) == Some(children + rest2));
                            assert(prev_next + (children + rest2) =~= (prev_next + children) + rest2);
                        }
                    }
                }
                None => {
                    proof {
                        assert(spec_decompose_all(pre) is None);
                        assert(spec_decompose_all(triangles@) is None);
                        assert((num_generations - g) as nat != 0);
                        assert(spec_tiling(triangles@, (num_generations - g) as nat) is None);
                        assert(spec_tiling(seed@, num_generations as nat) is None);
                    }
                    return None;
                }
            }
            i += 1;
        }
        proof {
            assert(triangles@.skip(triangles@.len() as int) =~= Seq::<RobinsonTriangle>::empty());
            assert(spec_decompose_all(triangles@.skip(triangles@.len() as int))
                == Some(Seq::<RobinsonTriangle>::empty()));
            assert(next@ + Seq::<RobinsonTriangle>::empty() =~= next@);
            assert(spec_decompose_all(triangles@) == Some(next@));
            assert((num_generations - g) as nat != 0);
            assert(spec_tiling(triangles@, (num_generations - g) as nat)
                == spec_tiling(next@, (num_generations - g - 1) as nat));
        }
        triangles = next;
        g += 1;
    }
    Some(triangles)
}

/// The base midpoint of a triangle, as a value.
pub open spec fn spec_base_median(t: RobinsonTriangle) -> Point {
    mk_point((t.a.0 + t.c.0) / 2, (t.a.1 + t.c.1) / 2)
}

/// The sort order of the merge: by base midpoint, `compare`-wise.
pub open spec fn spec_tri_le(t1: RobinsonTriangle, t2: RobinsonTriangle) -> bool {
    spec_compare(spec_base_median(t1), spec_base_median(t2)) != Ordering::Greater
}

/// Stable two-way merge of the sort.
pub open spec fn spec_merge_seqs(s1: Seq<RobinsonTriangle>, s2: Seq<RobinsonTriangle>)
    -> Seq<RobinsonTriangle>
    decreases s1.len() + s2.len(),
{
    if s1.len() == 0 {
        s2
    } else if s2.len() == 0 {
        s1
    } else if spec_tri_le(s1[0], s2[0]) {
        seq![s1[0]] + spec_merge_seqs(s1.drop_first(), s2)
    } else {
        seq![s2[0]] + spec_merge_seqs(s1, s2.drop_first())
    }
}

/// The deterministic merge sort of the triangles by their base midpoints.
pub open spec fn spec_sort(s: Seq<RobinsonTriangle>) -> Seq<RobinsonTriangle>
    decreases s.len(),
{
    if s.len() <= 1 {
        s
    } else {
        spec_merge_seqs(
            spec_sort(s.subrange(0, s.len() as int / 2)),
            spec_sort(s.subrange(s.len() as int / 2, s.len() as int)),
        )
    }
}

/// Merging two sequences yields exactly their elements.
proof fn lemma_merge_seqs_contains(s1: Seq<RobinsonTriangle>, s2: Seq<RobinsonTriangle>)
    ensures
        spec_merge_seqs(s1, s2).len() == s1.len() + s2.len(),
        forall|x: RobinsonTriangle| #[trigger] spec_merge_seqs(s1, s2).contains(x)
            ==> s1.contains(x) || s2.contains(x),
    decreases s1.len() + s2.len(),
{
    if s1.len() == 0 || s2.len() == 0 {
    } else if spec_tri_le(s1[0], s2[0]) {
        lemma_merge_seqs_contains(s1.drop_first(), s2);
        assert forall|x: RobinsonTriangle| #[trigger] spec_merge_seqs(s1, s2).contains(x)
            implies s1.contains(x) || s2.contains(x) by {
            let m = spec_merge_seqs(s1, s2);
            let i = choose|i: int| 0 <= i < m.len() && m[i] == x;
            if i == 0 {
                assert(s1[0] == x);
            } else {
                assert(spec_merge_seqs(s1.drop_first(), s2)[i - 1] == x);
                assert(spec_merge_seqs(s1.drop_first(), s2).contains(x));
                if s1.drop_first().contains(x) {
                    let j = choose|j: int| 0 <= j < s1.drop_first().len()
                        && s1.drop_first()[j] == x;
                    assert(s1[j + 1] == x);
                }
            }
        }
    } else {
        lemma_merge_seqs_contains(s1, s2.drop_first());
        assert forall|x: RobinsonTriangle| #[trigger] spec_merge_seqs(s1, s2).contains(x)
            implies s1.contains(x) || s2.contains(x) by {
            let m = spec_merge_seqs(s1, s2);
            let i = choose|i: int| 0 <= i < m.len() && m[i] == x;
            if i == 0 {
                assert(s2[0] == x);
            } else {
                assert(spec_merge_seqs(s1, s2.drop_first())[i - 1] == x);
                assert(spec_merge_seqs(s1, s2.drop_first()).contains(x));
                if s2.drop_first().contains(x) {
                    let j = choose|j: int| 0 <= j < s2.drop_first().len()
                        && s2.drop_first()[j] == x;
                    assert(s2[j + 1] == x);
                }
            }
        }
    }
}

/// Sorting yields exactly the input's elements.
proof fn lemma_sort_contains(s: Seq<RobinsonTriangle>)
    ensures
        spec_sort(s).len() == s.len(),
        forall|x: RobinsonTriangle| #[trigger] spec_sort(s).contains(x) ==> s.contains(x),
    decreases s.len(),
{
    if s.len() <= 1 {
    } else {
        let mid = s.len() as int / 2;
        let s1 = s.subrange(0, mid);
        let s2 = s.subrange(mid, s.len() as int);
        lemma_sort_contains(s1);
        lemma_sort_contains(s2);
        lemma_merge_seqs_contains(spec_sort(s1), spec_sort(s2));
        assert forall|x: RobinsonTriangle| #[trigger] spec_sort(s).contains(x)
            implies s.contains(x) by {
            if s1.contains(x) {
                let j = choose|j: int| 0 <= j < s1.len() && s1[j] == x;
                assert(s[j] == x);
            }
            if s2.contains(x) {
                let j = choose|j: int| 0 <= j < s2.len() && s2[j] == x;
                assert(s[j + mid] == x);
            }
        }
    }
}

/// Bounded triangles stay bounded through the sort.
proof fn lemma_sort_bounded(s: Seq<RobinsonTriangle>)
    requires
        all_bounded(s),
    ensures
        all_bounded(spec_sort(s)),
        spec_sort(s).len() == s.len(),
{
    lemma_sort_contains(s);
    assert forall|i: int| 0 <= i < spec_sort(s).len()
        implies tri_bounded(#[trigger] spec_sort(s)[i]) by {
        assert(spec_sort(s).contains(spec_sort(s)[i]));
        assert(s.contains(spec_sort(s)[i]));
        let j = choose|j: int| 0 <= j < s.len() && s[j] == spec_sort(s)[i];
        assert(tri_bounded(s[j]));
    }
}

/// The sort order of the merge, executably.
fn tri_le(t1: &RobinsonTriangle, t2: &RobinsonTriangle) -> (r: bool)
    requires
        tri_bounded(*t1),
        tri_bounded(*t2),
    ensures
        r == spec_tri_le(*t1, *t2),
{
    let m1 = t1.base_median();
    let m2 = t2.base_median();
    match Point::compare(m1, m2) {
        Ordering::Greater => false,
        _ => true,
    }
}

/// Stable two-way merge, executably.
fn merge_halves(left: Vec<RobinsonTriangle>, right: Vec<RobinsonTriangle>)
    -> (r: Vec<RobinsonTriangle>)
    requires
        all_bounded(left@),
        all_bounded(right@),
    ensures
        r@ == spec_merge_seqs(left@, right@),
{
    let mut out: Vec<RobinsonTriangle> = Vec::new();
    let mut i: usize = 0;
    let mut j: usize = 0;
    proof {
        assert(left@.skip(0) =~= left@);
        assert(right@.skip(0) =~= right@);
        assert(Seq::<RobinsonTriangle>::empty() + spec_merge_seqs(left@, right@)
            =~= spec_merge_seqs(left@, right@));
    }
    while i < left.len() || j < right.len()
        invariant
            i <= left.len(),
            j <= right.len(),
            all_bounded(left@),
            all_bounded(right@),
            spec_merge_seqs(left@, right@)
                == out@ + spec_merge_seqs(left@.skip(i as int), right@.skip(j as int)),
        decreases left.len() - i + right.len() - j,
    {
        let ghost l1 = left@.skip(i as int);
        let ghost l2 = right@.skip(j as int);
        let take_left = if i < left.len() {
            if j < right.len() {
                tri_le(&left[i], &right[j])
            } else {
                true
            }
        } else {
            false
        };
        if take_left {
            proof {
                assert(l1[0] == left@[i as int]);
                assert(l1.drop_first() =~= left@.skip(i as int + 1));
                if l2.len() > 0 {
                    assert(spec_merge_seqs(l1, l2)
                        == seq![l1[0]] + spec_merge_seqs(l1.drop_first(), l2));
                } else {
                    assert(l1 =~= seq![l1[0]] + l1.drop_first());
                    assert(spec_merge_seqs(l1.drop_first(), l2) == l1.drop_first());
                }
                assert((out@ + (seq![l1[0]] + spec_merge_seqs(l1.drop_first(), l2)))
                    =~= (out@.push(l1[0]) + spec_merge_seqs(l1.drop_first(), l2)));
            }
            out.push(left[i]);
            i += 1;
        } else {
            proof {
                assert(l2[0] == right@[j as int]);
                assert(l2.drop_first() =~= right@.skip(j as int + 1));
                if l1.len() > 0 {
                    assert(spec_merge_seqs(l1, l2)
                        == seq![l2[0]] + spec_merge_seqs(l1, l2.drop_first()));
                } else {
                    assert(l2 =~= seq![l2[0]] + l2.drop_first());
                    assert(spec_merge_seqs(l1, l2.drop_first()) == l2.drop_first());
                }
                assert((out@ + (seq![l2[0]] + spec_merge_seqs(l1, l2.drop_first())))
                    =~= (out@.push(l2[0]) + spec_merge_seqs(l1, l2.drop_first())));
            }
            out.push(right[j]);
            j += 1;
        }
    }
    proof {
        assert(left@.skip(left@.len() as int) =~= Seq::<RobinsonTriangle>::empty());
        assert(right@.skip(right@.len() as int) =~= Seq::<RobinsonTriangle>::empty());
        assert(out@ + Seq::<RobinsonTriangle>::empty() =~= out@);
    }
    out
}

/// Merge sort by base midpoint, executably.
fn sort_triangles(v: Vec<RobinsonTriangle>) -> (r: Vec<RobinsonTriangle>)
    requires
        all_bounded(v@),
    ensures
        r@ == spec_sort(v@),
        all_bounded(r@),
    decreases v@.len(),
{
    if v.len() <= 1 {
        return v;
    }
    let mid = v.len() / 2;
    let mut left: Vec<RobinsonTriangle> = Vec::new();
    let mut i: usize = 0;
    while i < mid
        invariant
            i <= mid,
            mid == v@.len() / 2,
            mid < v@.len(),
            all_bounded(v@),
            left@ =~= v@.subrange(0, i as int),
        decreases mid - i,
    {
        left.push(v[i]);
        i += 1;
    }
    let mut right: Vec<RobinsonTriangle> = Vec::new();
    let mut j: usize = mid;
    while j < v.len()
        invariant
            mid <= j <= v@.len(),
            mid == v@.len() / 2,
            all_bounded(v@),
            right@ =~= v@.subrange(mid as int, j as int),
        decreases v@.len() - j,
    {
        right.push(v[j]);
        j += 1;
    }
    proof {
        assert(left@ =~= v@.subrange(0, mid as int));
        assert(right@ =~= v@.subrange(mid as int, v@.len() as int));
        assert(all_bounded(left@));
        assert(all_bounded(right@));
    }
    let ls = sort_triangles(left);
    let rs = sort_triangles(right);
    proof {
        lemma_sort_bounded(v@.subrange(0, mid as int));
        lemma_sort_bounded(v@.subrange(mid as int, v@.len() as int));
        lemma_sort_bounded(v@);
    }
    merge_halves(ls, rs)
}

/// What the sorted-order scan produces: a fused rhombus for every
/// adjacent pair of triangles with close base midpoints, whose shared
/// base endpoints must then also coincide — a mismatch there is a fatal
/// self-check failure, reported as `None`.
pub open spec fn spec_scan(s: Seq<RobinsonTriangle>) -> Option<Seq<Quadrilateral>>
    decreases s.len(),
{
    if s.len() < 2 {
        Some(Seq::empty())
    } else {
        let cur = s[0];
        let nxt = s[1];
        if spec_close_point(spec_base_median(cur), spec_base_median(nxt)) {
            if spec_close_point(cur.a, nxt.a) || spec_close_point(cur.a, nxt.c) {
                match spec_scan(s.drop_first()) {
                    Some(rest) => Some(seq![spec_fuse(cur, nxt)] + rest),
                    None => None,
                }
            } else {
                None
            }
        } else {
            spec_scan(s.drop_first())
        }
    }
}

/// What `merge_pairs` returns: the scan of the sorted input.
pub open spec fn spec_merge_pairs(s: Seq<RobinsonTriangle>) -> Option<Seq<Quadrilateral>> {
    spec_scan(spec_sort(s))
}

/// A rhombus whose vertices are within the engine's working bound.
pub open spec fn quad_bounded(q: Quadrilateral) -> bool {
    &&& crate::geometry::point_within(q.a, 50_000_000_000_000)
    &&& crate::geometry::point_within(q.b, 50_000_000_000_000)
    &&& crate::geometry::point_within(q.c, 50_000_000_000_000)
    &&& crate::geometry::point_within(q.d, 50_000_000_000_000)
}

/// All rhombi of a sequence are within the engine's working bound.
pub open spec fn all_quads_bounded(s: Seq<Quadrilateral>) -> bool {
    forall|i: int| 0 <= i < s.len() ==> quad_bounded(#[trigger] s[i])
}

/// Fuse every pair of triangles that share a base into a rhombus, by
/// sorting on base midpoints and scanning neighbors.  Unpaired
/// triangles are dropped; a pair with close midpoints but mismatched
/// base endpoints is a fatal self-check failure (`None`).
pub fn merge_pairs(triangles: Vec<RobinsonTriangle>) -> (r: Option<Vec<Quadrilateral>>)
    requires
        all_bounded(triangles@),
    ensures
        r is Some <==> spec_merge_pairs(triangles@) is Some,
        r is Some ==> r->Some_0@ == spec_merge_pairs(triangles@)->Some_0,
        r is Some ==> all_quads_bounded(r->Some_0@),
{
    let sorted = sort_triangles(triangles);
    let mut quads: Vec<Quadrilateral> = Vec::new();
    let mut i: usize = 0;
    proof {
        assert(sorted@.skip(0) =~= sorted@);
        if spec_scan(sorted@) is Some {
            let rest = spec_scan(sorted@)->Some_0;
            assert(Seq::<Quadrilateral>::empty() + rest =~= rest);
        }
    }
    while sorted.len() >= 2 && i < sorted.len() - 1
        invariant
            i <= sorted@.len(),
            all_bounded(sorted@),
            all_quads_bounded(quads@),
            sorted@ == spec_sort(triangles@),
            match spec_scan(sorted@.skip(i as int)) {
                Some(rest) => spec_scan(sorted@) == Some(quads@ + rest),
                None => spec_scan(sorted@) is None,
            },
        decreases sorted.len() - i,
    {
        let ghost suf = sorted@.skip(i as int);
        proof {
            assert(suf[0] == sorted@[i as int]);
            assert(suf[1] == sorted@[i as int + 1]);
            assert(suf.drop_first() =~= sorted@.skip(i as int + 1));
        }
        let cur = sorted[i];
        let nxt = sorted[i + 1];
        if close(cur.base_median(), nxt.base_median()) {
            if close(cur.a, nxt.a) || close(cur.a, nxt.c) {
                let ghost prev = quads@;
                quads.push(Quadrilateral { a: cur.a, b: cur.b, c: cur.c, d: nxt.b });
                proof {
                    if spec_scan(sorted@.skip(i as int + 1)) is Some {
                        let rest2 = spec_scan(sorted@.skip(i as int + 1))->Some_0;
                        assert(spec_scan(suf) == Some(seq![spec_fuse(cur, nxt)] + rest2));
                        assert(prev + (seq![spec_fuse(cur, nxt)] + rest2) =~= quads@ + rest2);
                    }
                }
            } else {
                proof {
                    assert(spec_scan(suf) is None);
                }
                return None;
            }
        }
        i += 1;
    }
    proof {
        assert(sorted@.skip(i as int).len() < 2);
        assert(spec_scan(sorted@.skip(i as int)) == Some(Seq::<Quadrilateral>::empty()));
        assert(quads@ + Seq::<Quadrilateral>::empty() =~= quads@);
    }
    Some(quads)
}

/// The grid cell of one median coordinate: the coordinate scaled so that
/// one triangle side spans a hundred cells.
pub open spec fn spec_cell(v: int, side: int) -> int {
    (v * 100) / side
}

/// The bucket of a triangle: its base midpoint's grid cell, both cell
/// coordinates packed into one key.
pub open spec fn spec_bucket_key(t: RobinsonTriangle, side: int) -> u128 {
    let m = spec_base_median(t);
    let cx = spec_cell(m.0 as int, side);
    let cy = spec_cell(m.1 as int, side);
    ((cx + 9223372036854775808) * 18446744073709551616 + (cy + 9223372036854775808)) as u128
}

/// The state of the hashing pass: the open buckets (cell to triangle
/// index), the rhombi fused so far, which triangles have been merged,
/// and whether the collision self-check has held so far.
pub struct HashPass {
    pub table: Map<u128, usize>,
    pub quads: Seq<Quadrilateral>,
    pub merged: Seq<bool>,
    pub ok: bool,
}

/// One step of the hashing pass, on triangle `i`: fuse with the bucket's
/// occupant if there is one whose midpoint is truly close (a cell
/// collision between unrelated triangles fails the self-check),
/// otherwise occupy the bucket.
pub open spec fn spec_hash_step(st: HashPass, s: Seq<RobinsonTriangle>, i: int, side: int)
    -> HashPass {
    let t = s[i];
    let key = spec_bucket_key(t, side);
    if st.table.dom().contains(key) {
        let j = st.table[key] as int;
        if spec_close_point(spec_base_median(s[j]), spec_base_median(t)) {
            HashPass {
                table: st.table.remove(key),
                quads: st.quads.push(spec_fuse(t, s[j])),
                merged: st.merged.update(i, true).update(j, true),
                ok: true,
            }
        } else {
            HashPass { ok: false, ..st }
        }
    } else {
        HashPass { table: st.table.insert(key, i as usize), ..st }
    }
}

/// The hashing pass over the first `i` triangles; it stops moving at the
/// first failed self-check.
pub open spec fn spec_hash_pass(s: Seq<RobinsonTriangle>, i: int, side: int) -> HashPass
    decreases i,
{
    if i <= 0 {
        HashPass {
            table: Map::empty(),
            quads: Seq::empty(),
            merged: Seq::new(s.len(), |j: int| false),
            ok: true,
        }
    } else {
        let prev = spec_hash_pass(s, i - 1, side);
        if prev.ok {
            spec_hash_step(prev, s, i - 1, side)
        } else {
            prev
        }
    }
}

/// A failed self-check is final: later steps leave the state unchanged.
proof fn lemma_hash_pass_sticky(s: Seq<RobinsonTriangle>, i: int, n: int, side: int)
    requires
        0 <= i <= n,
        !spec_hash_pass(s, i, side).ok,
    ensures
        spec_hash_pass(s, n, side) == spec_hash_pass(s, i, side),
    decreases n - i,
{
    if n > i {
        lemma_hash_pass_sticky(s, i, n - 1, side);
    }
}

/// The triangles the hashing pass left unmerged, in input order.
pub open spec fn spec_remaining(s: Seq<RobinsonTriangle>, merged: Seq<bool>, i: int)
    -> Seq<RobinsonTriangle>
    decreases s.len() - i,
{
    if i < 0 || i >= s.len() {
        Seq::empty()
    } else if merged[i] {
        spec_remaining(s, merged, i + 1)
    } else {
        seq![s[i]] + spec_remaining(s, merged, i + 1)
    }
}

/// What `merge_pairs_hashing` returns: the fused pairs of the hashing
/// pass, then the sort-based merge of whatever the grid left over, with
/// `None` for a degenerate grid scale or a failed self-check.
pub open spec fn spec_merge_pairs_hashing(s: Seq<RobinsonTriangle>) -> Option<Seq<Quadrilateral>> {
    if s.len() == 0 {
        Some(Seq::empty())
    } else {
        let side = sqrt_floor(dist_sq(s[0].a, s[0].b));
        if side == 0 {
            None
        } else {
            let st = spec_hash_pass(s, s.len() as int, side);
            if !st.ok {
                None
            } else {
                match spec_merge_pairs(spec_remaining(s, st.merged, 0)) {
                    Some(q2) => Some(st.quads + q2),
                    None => None,
                }
            }
        }
    }
}

/// Fuse base-sharing triangle pairs in a single pass, by bucketing base
/// midpoints into a grid scaled to the first triangle's side length.
/// Pairs that straddle a cell boundary land in different buckets; they
/// and the genuinely unpaired triangles are handed to `merge_pairs` as a
/// correctness-preserving fallback, so discretization never loses a
/// pair.  `None` reports a degenerate first triangle (no usable grid
/// scale), a grid collision between triangles whose midpoints are not
/// truly close, or a failed base self-check in the fallback.
pub fn merge_pairs_hashing(triangles: Vec<RobinsonTriangle>) -> (r: Option<Vec<Quadrilateral>>)
    requires
        all_bounded(triangles@),
    ensures
        r is Some <==> spec_merge_pairs_hashing(triangles@) is Some,
        r is Some ==> r->Some_0@ == spec_merge_pairs_hashing(triangles@)->Some_0,
        r is Some ==> all_quads_bounded(r->Some_0@),
{
    let n = triangles.len();
    if n == 0 {
        let out: Vec<Quadrilateral> = Vec::new();
        return Some(out);
    }
    let side = triangles[0].a.distance_to(triangles[0].b);
    if side == 0 {
        return None;
    }
    let mut map: HashMap<u128, usize> = HashMap::new();
    let mut merged: Vec<bool> = Vec::new();
    let mut i0: usize = 0;
    while i0 < n
        invariant
            i0 <= n,
            merged@.len() == i0,
            forall|j: int| 0 <= j < i0 ==> !(#[trigger] merged@[j]),
        decreases n - i0,
    {
        merged.push(false);
        i0 += 1;
    }
    let mut quads: Vec<Quadrilateral> = Vec::new();
    let mut i: usize = 0;
    proof {
        assert(merged@ =~= Seq::new(triangles@.len(), |j: int| false));
        assert(map@ =~= Map::<u128, usize>::empty());
    }
    while i < n
        invariant
            i <= n,
            n == triangles@.len(),
            all_bounded(triangles@),
            0 < side as int == sqrt_floor(dist_sq(triangles@[0].a, triangles@[0].b)),
            side < 1_000_000_000_000_000,
            ({
                let st = spec_hash_pass(triangles@, i as int, side as int);
                &&& st.ok
                &&& map@ == st.table
                &&& quads@ == st.quads
                &&& merged@ == st.merged
            }),
            all_quads_bounded(quads@),
            merged@.len() == n,
            forall|k: u128| #[trigger] map@.dom().contains(k) ==> map@[k] < i,
        decreases n - i,
    {
        let ghost st = spec_hash_pass(triangles@, i as int, side as int);
        let med = triangles[i].base_median();
        proof {
            lemma_cell_bound(med.0 as int, side as int);
            lemma_cell_bound(med.1 as int, side as int);
        }
        let cx = floor_div((med.0 as i128) * 100, side as i128);
        let cy = floor_div((med.1 as i128) * 100, side as i128);
        let kx = (cx + 9223372036854775808i128) as u128;
        let ky = (cy + 9223372036854775808i128) as u128;
        let key: u128 = kx * 18446744073709551616u128 + ky;
        proof {
            assert(kx < 18446744073709551616u128);
            assert(ky < 18446744073709551616u128);
            assert(kx as int * 18446744073709551616int
                <= 18446744073709551615int * 18446744073709551616int) by (nonlinear_arith)
                requires kx as int <= 18446744073709551615int;
            assert(key as int == (cx as int + 9223372036854775808int) * 18446744073709551616int
                + (cy as int + 9223372036854775808int));
            assert(key == spec_bucket_key(triangles@[i as int], side as int));
            assert(spec_hash_pass(triangles@, i as int + 1, side as int)
                == spec_hash_step(st, triangles@, i as int, side as int));
        }
        let found: Option<usize> = match map.get(&key) {
            Some(jref) => Some(*jref),
            None => None,
        };
        match found {
            Some(j) => {
                let mj = triangles[j].base_median();
                if close(mj, med) {
                    quads.push(Quadrilateral {
                        a: triangles[i].a,
                        b: triangles[i].b,
                        c: triangles[i].c,
                        d: triangles[j].b,
                    });
                    map.remove(&key);
                    merged[i] = true;
                    merged[j] = true;
                } else {
                    proof {
                        assert(!spec_hash_pass(triangles@, i as int + 1, side as int).ok);
                        lemma_hash_pass_sticky(triangles@, i as int + 1, n as int, side as int);
                    }
                    return None;
                }
            }
            None => {
                map.insert(key, i);
            }
        }
        i += 1;
    }
    let ghost st_final = spec_hash_pass(triangles@, n as int, side as int);
    let mut rem: Vec<RobinsonTriangle> = Vec::new();
    let mut j2: usize = 0;
    proof {
        assert(Seq::<RobinsonTriangle>::empty() + spec_remaining(triangles@, merged@, 0)
            =~= spec_remaining(triangles@, merged@, 0));
    }
    while j2 < n
        invariant
            j2 <= n,
            n == triangles@.len(),
            all_bounded(triangles@),
            all_bounded(rem@),
            merged@.len() == n,
            merged@ == st_final.merged,
            st_final == spec_hash_pass(triangles@, n as int, side as int),
            spec_remaining(triangles@, merged@, 0)
                == rem@ + spec_remaining(triangles@, merged@, j2 as int),
        decreases n - j2,
    {
        let ghost prev = rem@;
        if !merged[j2] {
            rem.push(triangles[j2]);
            proof {
                assert(spec_remaining(triangles@, merged@, j2 as int)
                    == seq![triangles@[j2 as int]]
                        + spec_remaining(triangles@, merged@, j2 as int + 1));
                assert(prev + (seq![triangles@[j2 as int]]
                    + spec_remaining(triangles@, merged@, j2 as int + 1))
                    =~= rem@ + spec_remaining(triangles@, merged@, j2 as int + 1));
            }
        }
        j2 += 1;
    }
    proof {
        assert(spec_remaining(triangles@, merged@, n as int) =~= Seq::<RobinsonTriangle>::empty());
        assert(rem@ + Seq::<RobinsonTriangle>::empty() =~= rem@);
        assert(rem@ == spec_remaining(triangles@, st_final.merged, 0));
    }
    match merge_pairs(rem) {
        Some(mut q2) => {
            let mut out = quads;
            let ghost first = out@;
            let ghost second = q2@;
            out.append(&mut q2);
            proof {
                assert forall|x: int| 0 <= x < out@.len()
                    implies quad_bounded(#[trigger] out@[x]) by {
                    if x < first.len() {
                        assert(out@[x] == first[x]);
                    } else {
                        assert(out@[x] == second[x - first.len()]);
                    }
                }
            }
            Some(out)
        }
        None => None,
    }
}

/// Generation zero is the identity: the tiling of any seed over zero
/// generations is the seed itself.
pub proof fn lemma_tiling_zero(s: Seq<RobinsonTriangle>)
    ensures
        spec_tiling(s, 0) == Some(s),
{
}

/// An empty triangle set stays empty under any number of generations.
pub proof fn lemma_tiling_empty(n: nat)
    ensures
        spec_tiling(Seq::empty(), n) == Some(Seq::<RobinsonTriangle>::empty()),
    decreases n,
{
    if n > 0 {
        lemma_tiling_empty((n - 1) as nat);
    }
}

/// An empty triangle list merges to an empty rhombus list.
pub proof fn lemma_merge_pairs_empty()
    ensures
        spec_merge_pairs(Seq::empty()) == Some(Seq::<Quadrilateral>::empty()),
{
    assert(spec_sort(Seq::<RobinsonTriangle>::empty()) == Seq::<RobinsonTriangle>::empty());
}

/// The hashing merge agrees with the baseline on an empty input: both
/// yield an empty rhombus list.
pub proof fn lemma_merge_pairs_hashing_empty()
    ensures
        spec_merge_pairs_hashing(Seq::empty()) == Some(Seq::<Quadrilateral>::empty()),
{
}

/// How many triangles of a set carry the given kind tag.
pub open spec fn count_kind(s: Seq<RobinsonTriangle>, k: TileType) -> int
    decreases s.len(),
{
    if s.len() == 0 {
        0
    } else {
        (if s[0].triangle_type == k { 1int } else { 0int }) + count_kind(s.drop_first(), k)
    }
}

/// The number of small triangles after `n` generations, from `sm` small
/// and `lg` large ones: each generation, every small triangle yields one
/// small and one large child, every large one a small and two large.
pub open spec fn small_after(sm: int, lg: int, n: nat) -> int
    decreases n,
{
    if n == 0 {
        sm
    } else {
        small_after(sm + lg, sm + 2 * lg, (n - 1) as nat)
    }
}

/// The number of large triangles after `n` generations.
pub open spec fn large_after(sm: int, lg: int, n: nat) -> int
    decreases n,
{
    if n == 0 {
        lg
    } else {
        large_after(sm + lg, sm + 2 * lg, (n - 1) as nat)
    }
}

/// Every triangle of the set carries one of the two rhombus kinds.
pub open spec fn all_rhombus(s: Seq<RobinsonTriangle>) -> bool {
    forall|i: int| 0 <= i < s.len()
        ==> (#[trigger] s[i].triangle_type == TileType::SmallRhombus
            || s[i].triangle_type == TileType::LargeRhombus)
}

/// Counting distributes over concatenation.
proof fn lemma_count_concat(s1: Seq<RobinsonTriangle>, s2: Seq<RobinsonTriangle>, k: TileType)
    ensures
        count_kind(s1 + s2, k) == count_kind(s1, k) + count_kind(s2, k),
    decreases s1.len(),
{
    if s1.len() == 0 {
        assert(s1 + s2 =~= s2);
    } else {
        lemma_count_concat(s1.drop_first(), s2, k);
        assert((s1 + s2).drop_first() =~= s1.drop_first() + s2);
        assert((s1 + s2)[0] == s1[0]);
    }
}

/// What one decomposition step does to the kind counts of a triangle's
/// children: a small parent yields one small and one large child, a
/// large parent one small and two large ones.
proof fn lemma_decompose_counts(t: RobinsonTriangle, ch: Seq<RobinsonTriangle>)
    requires
        spec_decompose(t) == Some(ch),
    ensures
        t.triangle_type == TileType::SmallRhombus
            || t.triangle_type == TileType::LargeRhombus,
        t.triangle_type == TileType::SmallRhombus ==> {
            &&& count_kind(ch, TileType::SmallRhombus) == 1
            &&& count_kind(ch, TileType::LargeRhombus) == 1
            &&& ch.len() == 2
        },
        t.triangle_type == TileType::LargeRhombus ==> {
            &&& count_kind(ch, TileType::SmallRhombus) == 1
            &&& count_kind(ch, TileType::LargeRhombus) == 2
            &&& ch.len() == 3
        },
        all_rhombus(ch),
{
    reveal(spec_decompose);
    reveal_with_fuel(count_kind, 5);
    if t.triangle_type == TileType::SmallRhombus {
        assert(ch.len() == 2);
        assert(ch[0].triangle_type == TileType::SmallRhombus);
        assert(ch[1].triangle_type == TileType::LargeRhombus);
        assert(ch.drop_first()[0] == ch[1]);
        assert(ch.drop_first().drop_first().len() == 0);
    } else {
        assert(ch.len() == 3);
        assert(ch[0].triangle_type == TileType::LargeRhombus);
        assert(ch[1].triangle_type == TileType::LargeRhombus);
        assert(ch[2].triangle_type == TileType::SmallRhombus);
        assert(ch.drop_first()[0] == ch[1]);
        assert(ch.drop_first().drop_first()[0] == ch[2]);
        assert(ch.drop_first().drop_first().drop_first().len() == 0);
    }
}

/// One whole generation advances the kind counts by the branching
/// recurrence.
proof fn lemma_decompose_all_counts(s: Seq<RobinsonTriangle>, r: Seq<RobinsonTriangle>)
    requires
        spec_decompose_all(s) == Some(r),
    ensures
        count_kind(r, TileType::SmallRhombus)
            == count_kind(s, TileType::SmallRhombus) + count_kind(s, TileType::LargeRhombus),
        count_kind(r, TileType::LargeRhombus)
            == count_kind(s, TileType::SmallRhombus) + 2 * count_kind(s, TileType::LargeRhombus),
        all_rhombus(r),
    decreases s.len(),
{
    if s.len() == 0 {
        assert(r =~= Seq::<RobinsonTriangle>::empty());
    } else {
        let ch = spec_decompose(s[0])->Some_0;
        let rest = spec_decompose_all(s.drop_first())->Some_0;
        lemma_decompose_counts(s[0], ch);
        lemma_decompose_all_counts(s.drop_first(), rest);
        lemma_count_concat(ch, rest, TileType::SmallRhombus);
        lemma_count_concat(ch, rest, TileType::LargeRhombus);
        assert(r == ch + rest);
        assert forall|i: int| 0 <= i < r.len()
            implies (#[trigger] r[i].triangle_type == TileType::SmallRhombus
                || r[i].triangle_type == TileType::LargeRhombus) by {
            if i < ch.len() {
                assert(r[i] == ch[i]);
            } else {
                assert(r[i] == rest[i - ch.len()]);
            }
        }
    }
}

/// The kind counts after `n` generations follow the closed-form
/// branching recurrence: decomposition multiplies a small triangle by
/// (1 small, 1 large) and a large one by (1 small, 2 large) each
/// generation.
pub proof fn lemma_tiling_counts(s: Seq<RobinsonTriangle>, n: nat, r: Seq<RobinsonTriangle>)
    requires
        spec_tiling(s, n) == Some(r),
    ensures
        count_kind(r, TileType::SmallRhombus)
            == small_after(count_kind(s, TileType::SmallRhombus),
                count_kind(s, TileType::LargeRhombus), n),
        count_kind(r, TileType::LargeRhombus)
            == large_after(count_kind(s, TileType::SmallRhombus),
                count_kind(s, TileType::LargeRhombus), n),
    decreases n,
{
    if n != 0 {
        let s1 = spec_decompose_all(s)->Some_0;
        lemma_decompose_all_counts(s, s1);
        lemma_tiling_counts(s1, (n - 1) as nat, r);
    }
}

/// On an all-rhombus set the two kind counts exhaust the length.
proof fn lemma_counts_cover(s: Seq<RobinsonTriangle>)
    requires
        all_rhombus(s),
    ensures
        count_kind(s, TileType::SmallRhombus) + count_kind(s, TileType::LargeRhombus)
            == s.len(),
    decreases s.len(),
{
    if s.len() > 0 {
        assert(all_rhombus(s.drop_first())) by {
            assert(forall|i: int| 0 <= i < s.drop_first().len()
                ==> #[trigger] s.drop_first()[i] == s[i + 1]);
        }
        lemma_counts_cover(s.drop_first());
    }
}

/// The total triangle count after `n` generations of an all-rhombus seed
/// is the closed-form sum of the per-kind branching counts.
pub proof fn lemma_tiling_total_count(s: Seq<RobinsonTriangle>, n: nat, r: Seq<RobinsonTriangle>)
    requires
        spec_tiling(s, n) == Some(r),
        all_rhombus(s),
    ensures
        r.len() == small_after(count_kind(s, TileType::SmallRhombus),
                count_kind(s, TileType::LargeRhombus), n)
            + large_after(count_kind(s, TileType::SmallRhombus),
                count_kind(s, TileType::LargeRhombus), n),
    decreases n,
{
    lemma_tiling_counts(s, n, r);
    if n == 0 {
        lemma_counts_cover(s);
    } else {
        let s1 = spec_decompose_all(s)->Some_0;
        lemma_decompose_all_counts(s, s1);
        lemma_tiling_total_count(s1, (n - 1) as nat, r);
    }
}

/// Two triangles over one shared base merge into exactly one rhombus:
/// the two apexes joined across the base.  This is the pair-merging
/// round trip at its smallest; the first-listed triangle supplies
/// vertices `a`, `b`, `c` of the rhombus and the partner its apex `d`.
pub proof fn lemma_merge_single_pair(t1: RobinsonTriangle, t2: RobinsonTriangle)
    requires
        spec_close_point(spec_base_median(t1), spec_base_median(t2)),
        spec_close_point(t1.a, t2.a) || spec_close_point(t1.a, t2.c),
    ensures
        spec_merge_pairs(seq![t1, t2]) == Some(seq![spec_fuse(t1, t2)]),
{
    let s = seq![t1, t2];
    assert(s.subrange(0, 1) =~= seq![t1]);
    assert(s.subrange(1, 2) =~= seq![t2]);
    assert(spec_sort(seq![t1]) == seq![t1]);
    assert(spec_sort(seq![t2]) == seq![t2]);
    assert(spec_tri_le(t1, t2));
    assert(seq![t1].drop_first() =~= Seq::<RobinsonTriangle>::empty());
    assert(spec_merge_seqs(Seq::empty(), seq![t2]) == seq![t2]);
    assert(spec_merge_seqs(seq![t1], seq![t2])
        == seq![t1] + spec_merge_seqs(seq![t1].drop_first(), seq![t2]));
    assert(seq![t1] + seq![t2] =~= s);
    assert(spec_merge_seqs(seq![t1], seq![t2]) == s);
    assert(spec_sort(s) == s);
    assert(s.drop_first() =~= seq![t2]);
    assert(spec_scan(seq![t2]) == Some(Seq::<Quadrilateral>::empty()));
    assert(seq![spec_fuse(t1, t2)] + Seq::<Quadrilateral>::empty() =~= seq![spec_fuse(t1, t2)]);
}

/// Both merge variants drop a lone unpaired triangle and return no
/// rhombus for it: agreement on the smallest non-empty input.
pub proof fn lemma_merge_variants_agree_on_singleton(t: RobinsonTriangle)
    requires
        sqrt_floor(dist_sq(t.a, t.b)) != 0,
    ensures
        spec_merge_pairs(seq![t]) == Some(Seq::<Quadrilateral>::empty()),
        spec_merge_pairs_hashing(seq![t]) == spec_merge_pairs(seq![t]),
{
    let s = seq![t];
    assert(spec_sort(s) == s);
    assert(spec_scan(s) == Some(Seq::<Quadrilateral>::empty()));
    let side = sqrt_floor(dist_sq(t.a, t.b));
    let st0 = spec_hash_pass(s, 0, side);
    let st = spec_hash_pass(s, 1, side);
    assert(st == spec_hash_step(st0, s, 0, side));
    assert(!st0.table.dom().contains(spec_bucket_key(t, side)));
    assert(st.ok && st.merged == st0.merged);
    assert(!st.merged[0]);
    let rem = spec_remaining(s, st.merged, 0);
    assert(rem == seq![t] + spec_remaining(s, st.merged, 1));
    assert(spec_remaining(s, st.merged, 1) =~= Seq::<RobinsonTriangle>::empty());
    assert(rem =~= s);
    assert(st.quads + Seq::<Quadrilateral>::empty() =~= Seq::<Quadrilateral>::empty());
}

/// How many triangles of the index range `[lo, hi)` are unmerged.
pub open spec fn count_unmerged(merged: Seq<bool>, lo: int, hi: int) -> int
    decreases hi - lo,
{
    if lo >= hi {
        0
    } else {
        (if merged[lo] { 0int } else { 1int }) + count_unmerged(merged, lo + 1, hi)
    }
}

/// Marking an unmerged triangle within the range lowers the count by one.
proof fn lemma_count_update_true(merged: Seq<bool>, j: int, lo: int, hi: int)
    requires
        0 <= lo <= hi <= merged.len(),
        0 <= j < merged.len(),
        !merged[j],
    ensures
        j < lo || hi <= j ==> count_unmerged(merged.update(j, true), lo, hi)
            == count_unmerged(merged, lo, hi),
        lo <= j < hi ==> count_unmerged(merged.update(j, true), lo, hi)
            == count_unmerged(merged, lo, hi) - 1,
    decreases hi - lo,
{
    if lo < hi {
        lemma_count_update_true(merged, j, lo + 1, hi);
    }
}

/// The unmerged triangles of `[i, len)` are exactly what `spec_remaining`
/// collects there.
proof fn lemma_remaining_len(s: Seq<RobinsonTriangle>, merged: Seq<bool>, i: int)
    requires
        0 <= i,
    ensures
        spec_remaining(s, merged, i).len() == count_unmerged(merged, i, s.len() as int),
    decreases s.len() - i,
{
    if i < s.len() {
        lemma_remaining_len(s, merged, i + 1);
    }
}

/// The bookkeeping invariants of the hashing pass after `i` steps: the
/// merged flags cover the input, open buckets point at earlier unmerged
/// triangles, later triangles are untouched, and — while the self-check
/// holds — every processed triangle is either one half of a fused
/// rhombus or still unmerged.
proof fn lemma_hash_pass_invariants(s: Seq<RobinsonTriangle>, i: int, side: int)
    requires
        0 <= i <= s.len(),
        s.len() <= usize::MAX,
    ensures
        ({
            let st = spec_hash_pass(s, i, side);
            &&& st.merged.len() == s.len()
            &&& forall|k: u128| #[trigger] st.table.dom().contains(k)
                ==> 0 <= st.table[k] < i && !st.merged[st.table[k] as int]
            &&& forall|k1: u128, k2: u128|
                #[trigger] st.table.dom().contains(k1) && #[trigger] st.table.dom().contains(k2)
                    && k1 != k2 ==> st.table[k1] != st.table[k2]
            &&& forall|j: int| i <= j < s.len() ==> !(#[trigger] st.merged[j])
            &&& (st.ok ==> 2 * st.quads.len() + count_unmerged(st.merged, 0, i) == i)
        }),
    decreases i,
{
    if i > 0 {
        lemma_hash_pass_invariants(s, i - 1, side);
        let prev = spec_hash_pass(s, i - 1, side);
        if prev.ok {
            let st = spec_hash_step(prev, s, i - 1, side);
            assert(spec_hash_pass(s, i, side) == st);
            let key = spec_bucket_key(s[i - 1], side);
            if prev.table.dom().contains(key) {
                let j = prev.table[key] as int;
                if spec_close_point(spec_base_median(s[j]), spec_base_median(s[i - 1])) {
                    assert(0 <= j < i - 1 && !prev.merged[j]);
                    let m1 = prev.merged.update(i - 1, true);
                    assert(!m1[j]);
                    assert(st.merged == m1.update(j, true));
                    lemma_count_update_true(prev.merged, i - 1, 0, i - 1);
                    assert(count_unmerged(m1, 0, i - 1)
                        == count_unmerged(prev.merged, 0, i - 1));
                    lemma_count_update_true(m1, j, 0, i - 1);
                    assert(count_unmerged(st.merged, 0, i - 1)
                        == count_unmerged(prev.merged, 0, i - 1) - 1);
                    lemma_count_tail(st.merged, 0, i);
                    assert(st.merged[i - 1]);
                    assert(count_unmerged(st.merged, 0, i)
                        == count_unmerged(st.merged, 0, i - 1));
                    assert(2 * st.quads.len() + count_unmerged(st.merged, 0, i) == i);
                    assert forall|k: u128| #[trigger] st.table.dom().contains(k)
                        implies 0 <= st.table[k] < i && !st.merged[st.table[k] as int] by {
                        assert(prev.table.dom().contains(k) && k != key);
                        assert(prev.table[k] != j);
                        assert(st.table[k] == prev.table[k]);
                    }
                }
            } else {
                assert(st.merged == prev.merged);
                lemma_count_tail(st.merged, 0, i);
                assert(!st.merged[i - 1]);
                assert(count_unmerged(st.merged, 0, i)
                    == count_unmerged(st.merged, 0, i - 1) + 1);
                assert forall|k: u128| #[trigger] st.table.dom().contains(k)
                    implies 0 <= st.table[k] < i && !st.merged[st.table[k] as int] by {
                    if k == key {
                        assert(st.table[k] == i - 1);
                    } else {
                        assert(prev.table.dom().contains(k));
                        assert(st.table[k] == prev.table[k]);
                    }
                }
            }
        } else {
            assert(spec_hash_pass(s, i, side) == prev);
        }
    }
}

/// Splitting off the last index of a count range.
proof fn lemma_count_tail(merged: Seq<bool>, lo: int, hi: int)
    requires
        0 <= lo < hi <= merged.len(),
    ensures
        count_unmerged(merged, lo, hi) == count_unmerged(merged, lo, hi - 1)
            + (if merged[hi - 1] { 0int } else { 1int }),
    decreases hi - lo,
{
    if lo + 1 < hi {
        lemma_count_tail(merged, lo + 1, hi);
        assert(count_unmerged(merged, lo, hi)
            == (if merged[lo] { 0int } else { 1int }) + count_unmerged(merged, lo + 1, hi));
        assert(count_unmerged(merged, lo, hi - 1)
            == (if merged[lo] { 0int } else { 1int }) + count_unmerged(merged, lo + 1, hi - 1));
    } else {
        assert(count_unmerged(merged, lo, hi)
            == (if merged[lo] { 0int } else { 1int }) + count_unmerged(merged, lo + 1, hi));
        assert(count_unmerged(merged, lo + 1, hi) == 0);
        assert(count_unmerged(merged, lo, hi - 1) == 0);
    }
}

/// The grid pass loses no triangle: when the hashing merge succeeds,
/// twice the rhombi its grid pass fused plus the triangles it handed to
/// the sort-based fallback add up to the whole input.  Discretization
/// misses only move pairs to the fallback, never out of the result.
pub proof fn lemma_hashing_accounts_for_every_triangle(s: Seq<RobinsonTriangle>)
    requires
        0 < s.len() <= usize::MAX,
        spec_merge_pairs_hashing(s) is Some,
    ensures
        ({
            let side = sqrt_floor(dist_sq(s[0].a, s[0].b));
            let st = spec_hash_pass(s, s.len() as int, side);
            2 * st.quads.len() + spec_remaining(s, st.merged, 0).len() == s.len()
        }),
{
    let side = sqrt_floor(dist_sq(s[0].a, s[0].b));
    let st = spec_hash_pass(s, s.len() as int, side);
    lemma_hash_pass_invariants(s, s.len() as int, side);
    lemma_remaining_len(s, st.merged, 0);
    lemma_count_split(st.merged, 0, s.len() as int, s.len() as int);
}

/// A count over a range is the sum of the counts over its two halves;
/// with the split at the top this closes the prefix/suffix bookkeeping.
proof fn lemma_count_split(merged: Seq<bool>, lo: int, mid: int, hi: int)
    requires
        lo <= mid <= hi,
    ensures
        count_unmerged(merged, lo, hi)
            == count_unmerged(merged, lo, mid) + count_unmerged(merged, mid, hi),
    decreases mid - lo,
{
    if lo < mid {
        lemma_count_split(merged, lo + 1, mid, hi);
    }
}

/// Two triangles built over one shared base with opposite handedness —
/// the two halves of a rhombus — merge into exactly one quadrilateral:
/// the shared base endpoints and the two apexes.
pub proof fn lemma_merge_shared_base_pair(a: Point, c: Point, kind: TileType)
    ensures
        ({
            let t1 = crate::geometry::spec_from_base(a, c, kind, true);
            let t2 = crate::geometry::spec_from_base(a, c, kind, false);
            spec_merge_pairs(seq![t1, t2]) == Some(seq![spec_fuse(t1, t2)])
        }),
{
    let t1 = crate::geometry::spec_from_base(a, c, kind, true);
    let t2 = crate::geometry::spec_from_base(a, c, kind, false);
    assert(t1.a == a && t2.a == a && t1.c == c && t2.c == c);
    assert(spec_base_median(t1) == spec_base_median(t2));
    lemma_merge_single_pair(t1, t2);
}

/// A grid cell index is small: the scaled median over a positive side.
proof fn lemma_cell_bound(v: int, side: int)
    requires
        0 < side,
        -50_000_000_000_000 <= v <= 50_000_000_000_000,
    ensures
        -5_000_000_000_000_001 <= (v * 100) / side <= 5_000_000_000_000_000,
        -5_000_000_000_000_000 <= v * 100 <= 5_000_000_000_000_000,
{
    let m = 5_000_000_000_000_000int;
    assert(-m <= v * 100 <= m);
    lemma_div_small_bound_local(v * 100, side, m);
    assert(m / side <= m) by {
        vstd::arithmetic::div_mod::lemma_div_is_ordered_by_denominator(m, 1, side);
        assert(m / 1int == m);
    }
    assert(0 <= m / side) by {
        lemma_div_is_ordered(0, m, side);
    }
}

/// If `|a| <= m` then `a / b` lies within `[-m/b - 1, m/b]`.
proof fn lemma_div_small_bound_local(a: int, b: int, m: int)
    requires
        0 < b,
        0 <= m,
        -m <= a <= m,
    ensures
        -(m / b) - 1 <= a / b <= m / b,
{
    lemma_div_is_ordered(a, m, b);
    lemma_div_is_ordered(-m, a, b);
    vstd::arithmetic::div_mod::lemma_fundamental_div_mod(m, b);
    let q = m / b;
    let r = m % b;
    if r == 0 {
        assert(-m == (-q) * b + 0) by (nonlinear_arith)
            requires m == b * q + 0;
        vstd::arithmetic::div_mod::lemma_fundamental_div_mod_converse(-m, b, -q, 0);
    } else {
        assert(-m == (-q - 1) * b + (b - r)) by (nonlinear_arith)
            requires m == b * q + r;
        vstd::arithmetic::div_mod::lemma_fundamental_div_mod_converse(-m, b, -q - 1, b - r);
    }
}

} // verus!
