use vstd::prelude::*;
use crate::geometry::{
    Point2, PointCloud, Centroid, MAX_POINTS, coord_bound, sum_of, lemma_take_step,
    lemma_sum_of_zero, lemma_centroid_of_identical, calculate_centroid,
};
use crate::search::{
    sq_dist, lemma_closest_of_member, closest_in, correspondences, matched_model, error_total,
    find_correspondences, model_side, calculate_error,
};

verus! {

/// `count` times the deviation of `v` from the mean `sum / count`.
pub open spec fn dev(v: int, count: int, sum: int) -> int {
    count * v - sum
}

pub open spec fn dev_x(p: Point2, c: Centroid) -> int {
    dev(p.x as int, c.count as int, c.sum_x as int)
}

pub open spec fn dev_y(p: Point2, c: Centroid) -> int {
    dev(p.y as int, c.count as int, c.sum_y as int)
}

/// Bound on the absolute value of a scaled deviation.
pub open spec fn dev_bound() -> int {
    0x10_0000_0000_0000
}

/// Bound on the absolute value of one term of a cross or spread sum.
pub open spec fn term_bound() -> int {
    0x200_0000_0000_0000_0000_0000_0000
}

pub open spec fn cross_xx(pairs: Seq<(Point2, Point2)>, sc: Centroid, mc: Centroid) -> int {
    sum_of(pairs, |pr: (Point2, Point2)| dev_x(pr.0, sc) * dev_x(pr.1, mc))
}

pub open spec fn cross_xy(pairs: Seq<(Point2, Point2)>, sc: Centroid, mc: Centroid) -> int {
    sum_of(pairs, |pr: (Point2, Point2)| dev_x(pr.0, sc) * dev_y(pr.1, mc))
}

pub open spec fn cross_yy(pairs: Seq<(Point2, Point2)>, sc: Centroid, mc: Centroid) -> int {
    sum_of(pairs, |pr: (Point2, Point2)| dev_y(pr.0, sc) * dev_y(pr.1, mc))
}

pub open spec fn cross_yx(pairs: Seq<(Point2, Point2)>, sc: Centroid, mc: Centroid) -> int {
    sum_of(pairs, |pr: (Point2, Point2)| dev_y(pr.0, sc) * dev_x(pr.1, mc))
}

pub open spec fn scene_term(pr: (Point2, Point2), sc: Centroid) -> int {
    dev_x(pr.0, sc) * dev_x(pr.0, sc) + dev_y(pr.0, sc) * dev_y(pr.0, sc)
}

pub open spec fn spread_scene(pairs: Seq<(Point2, Point2)>, sc: Centroid) -> int {
    sum_of(pairs, |pr: (Point2, Point2)| scene_term(pr, sc))
}

pub open spec fn spread_model(pairs: Seq<(Point2, Point2)>, mc: Centroid) -> int {
    sum_of(
        pairs,
        |pr: (Point2, Point2)| dev_x(pr.1, mc) * dev_x(pr.1, mc) + dev_y(pr.1, mc) * dev_y(pr.1, mc),
    )
}

/// The demeaned sums of a set of correspondences, exactly.
///
/// With `n` pairs, `c` the centroid of their `n` scene points and `d` the
/// centroid of their `n` matched model points, for each pair `(s, t)` let
/// `u = s - c` and `v = t - d`. Then `sxx = n² Σ u.x v.x`,
/// `sxy = n² Σ u.x v.y`, `syy = n² Σ u.y v.y`, `syx = n² Σ u.y v.x`,
/// `scene_spread = n² Σ |u|²` and `model_spread = n² Σ |v|²`. The rotation
/// that best maps the scene onto the model is `atan2(sxy - syx, sxx + syy)`,
/// and the scale factor is `sqrt(model_spread / scene_spread)`.
#[derive(Clone, Copy, Debug, PartialEq, Eq, Structural)]
pub struct AlignmentSums {
    pub sxx: i128,
    pub sxy: i128,
    pub syy: i128,
    pub syx: i128,
    pub scene_spread: i128,
    pub model_spread: i128,
}

impl AlignmentSums {
    /// These are the sums of `pairs` about the centroids `sc` and `mc`.
    pub open spec fn of(&self, pairs: Seq<(Point2, Point2)>, sc: Centroid, mc: Centroid) -> bool {
        &&& self.sxx == cross_xx(pairs, sc, mc)
        &&& self.sxy == cross_xy(pairs, sc, mc)
        &&& self.syy == cross_yy(pairs, sc, mc)
        &&& self.syx == cross_yx(pairs, sc, mc)
        &&& self.scene_spread == spread_scene(pairs, sc)
        &&& self.model_spread == spread_model(pairs, mc)
    }
}

/// `count * v - sum`, exactly.
fn deviation(v: i32, count: usize, sum: i128) -> (r: i128)
    requires
        count <= MAX_POINTS,
        -count * coord_bound() <= sum <= count * coord_bound(),
    ensures
        r == dev(v as int, count as int, sum as int),
        -dev_bound() <= r <= dev_bound(),
{
    assert(-0x8_0000_0000_0000 <= count * v <= 0x8_0000_0000_0000) by (nonlinear_arith)
        requires
            0 <= count <= 0x10_0000,
            -0x8000_0000 <= v < 0x8000_0000,
    ;
    count as i128 * v as i128 - sum as i128
}

proof fn lemma_product_bound(a: int, b: int)
    requires
        -dev_bound() <= a <= dev_bound(),
        -dev_bound() <= b <= dev_bound(),
    ensures
        -term_bound() / 2 <= a * b <= term_bound() / 2,
        0 <= a * a,
{
    assert(-0x100_0000_0000_0000_0000_0000_0000 <= a * b <= 0x100_0000_0000_0000_0000_0000_0000)
        by (nonlinear_arith)
        requires
            -0x10_0000_0000_0000 <= a <= 0x10_0000_0000_0000,
            -0x10_0000_0000_0000 <= b <= 0x10_0000_0000_0000,
    ;
    assert(0 <= a * a) by (nonlinear_arith);
}

/// Computes the demeaned cross sums and spreads of `pairs` about the scene
/// centroid `sc` and the model centroid `mc`.
pub fn estimate_alignment(pairs: &Vec<(Point2, Point2)>, sc: &Centroid, mc: &Centroid) -> (r:
    AlignmentSums)
    requires
        pairs@.len() <= MAX_POINTS,
        sc.wf(),
        mc.wf(),
    ensures
        r.of(pairs@, *sc, *mc),
{
    let mut r = AlignmentSums { sxx: 0, sxy: 0, syy: 0, syx: 0, scene_spread: 0, model_spread: 0 };
    let mut i: usize = 0;
    while i < pairs.len()
        invariant
            i <= pairs@.len(),
            pairs@.len() <= MAX_POINTS,
            sc.wf(),
            mc.wf(),
            r.of(pairs@.take(i as int), *sc, *mc),
            -i * term_bound() <= r.sxx <= i * term_bound(),
            -i * term_bound() <= r.sxy <= i * term_bound(),
            -i * term_bound() <= r.syy <= i * term_bound(),
            -i * term_bound() <= r.syx <= i * term_bound(),
            0 <= r.scene_spread <= i * term_bound(),
            0 <= r.model_spread <= i * term_bound(),
        decreases pairs@.len() - i,
    {
        let (s, t) = pairs[i];
        let ux = deviation(s.x, sc.count, sc.sum_x);
        let uy = deviation(s.y, sc.count, sc.sum_y);
        let vx = deviation(t.x, mc.count, mc.sum_x);
        let vy = deviation(t.y, mc.count, mc.sum_y);
        proof {
            lemma_take_step(pairs@, i as int);
            lemma_product_bound(ux as int, vx as int);
            lemma_product_bound(ux as int, vy as int);
            lemma_product_bound(uy as int, vy as int);
            lemma_product_bound(uy as int, vx as int);
            lemma_product_bound(ux as int, ux as int);
            lemma_product_bound(uy as int, uy as int);
            lemma_product_bound(vx as int, vx as int);
            lemma_product_bound(vy as int, vy as int);
        }
        r.sxx = r.sxx + ux * vx;
        r.sxy = r.sxy + ux * vy;
        r.syy = r.syy + uy * vy;
        r.syx = r.syx + uy * vx;
        r.scene_spread = r.scene_spread + (ux * ux + uy * uy);
        r.model_spread = r.model_spread + (vx * vx + vy * vy);
        i = i + 1;
    }
    assert(pairs@.take(pairs@.len() as int) =~= pairs@);
    r
}

/// A sum of terms that are never negative is not negative, and it is zero
/// only when every term is zero.
pub proof fn lemma_sum_of_nonneg<A>(s: Seq<A>, f: spec_fn(A) -> int)
    requires
        forall|i: int| 0 <= i < s.len() ==> f(#[trigger] s[i]) >= 0,
    ensures
        sum_of(s, f) >= 0,
        sum_of(s, f) == 0 ==> forall|i: int| 0 <= i < s.len() ==> f(#[trigger] s[i]) == 0,
    decreases s.len(),
{
    if s.len() > 0 {
        let t = s.drop_last();
        assert forall|i: int| 0 <= i < t.len() implies f(#[trigger] t[i]) >= 0 by {
            assert(t[i] == s[i]);
        }
        lemma_sum_of_nonneg(t, f);
        assert(f(s[s.len() - 1]) >= 0);
        if sum_of(s, f) == 0 {
            assert forall|i: int| 0 <= i < s.len() implies f(#[trigger] s[i]) == 0 by {
                if i < t.len() {
                    assert(t[i] == s[i]);
                }
            }
        }
    }
}

/// Every point of `s` is the same point.
pub open spec fn all_coincide(s: Seq<Point2>) -> bool {
    forall|i: int| 0 <= i < s.len() ==> #[trigger] s[i] == s[0]
}

/// The scene spread of the correspondences vanishes exactly when all scene
/// points coincide.
pub proof fn lemma_spread_zero_iff_coincide(scene: Seq<Point2>, model: Seq<Point2>, sc: Centroid)
    requires
        scene.len() > 0,
        sc.of(scene),
    ensures
        spread_scene(correspondences(scene, model), sc) == 0 <==> all_coincide(scene),
{
    let pairs = correspondences(scene, model);
    let f = |pr: (Point2, Point2)| scene_term(pr, sc);
    assert forall|i: int| 0 <= i < pairs.len() implies f(#[trigger] pairs[i]) >= 0 by {
        let a = dev_x(pairs[i].0, sc);
        let b = dev_y(pairs[i].0, sc);
        assert(a * a + b * b >= 0) by (nonlinear_arith);
    }
    lemma_sum_of_nonneg(pairs, f);
    let n = scene.len() as int;
    if spread_scene(pairs, sc) == 0 {
        assert forall|i: int| 0 <= i < scene.len() implies #[trigger] scene[i] == scene[0] by {
            assert(pairs[i].0 == scene[i]);
            assert(pairs[0].0 == scene[0]);
            assert(f(pairs[i]) == 0);
            assert(f(pairs[0]) == 0);
            let a = dev_x(scene[i], sc);
            let b = dev_y(scene[i], sc);
            let a0 = dev_x(scene[0], sc);
            let b0 = dev_y(scene[0], sc);
            assert(a == 0 && b == 0) by (nonlinear_arith)
                requires
                    a * a + b * b == 0,
            ;
            assert(a0 == 0 && b0 == 0) by (nonlinear_arith)
                requires
                    a0 * a0 + b0 * b0 == 0,
            ;
            let xi = scene[i].x as int;
            let x0 = scene[0].x as int;
            let yi = scene[i].y as int;
            let y0 = scene[0].y as int;
            assert(xi == x0) by (nonlinear_arith)
                requires
                    n * xi == n * x0,
                    n > 0,
            ;
            assert(yi == y0) by (nonlinear_arith)
                requires
                    n * yi == n * y0,
                    n > 0,
            ;
        }
    }
    if all_coincide(scene) {
        let a = scene[0];
        lemma_centroid_of_identical(scene, a);
        assert forall|i: int| 0 <= i < pairs.len() implies f(#[trigger] pairs[i]) == 0 by {
            assert(pairs[i].0 == scene[i]);
            assert(scene[i] == a);
            let dx = dev_x(pairs[i].0, sc);
            let dy = dev_y(pairs[i].0, sc);
            assert(dx * dx + dy * dy == 0) by (nonlinear_arith)
                requires
                    dx == 0,
                    dy == 0,
            ;
        }
        lemma_sum_of_zero(pairs, f);
    }
}

/// A sum is linear in its terms: where each term of `h` is `a` times that of
/// `f` plus `b` times that of `g`, so are the sums.
pub proof fn lemma_sum_of_linear<A>(
    s: Seq<A>,
    f: spec_fn(A) -> int,
    g: spec_fn(A) -> int,
    h: spec_fn(A) -> int,
    a: int,
    b: int,
)
    requires
        forall|i: int| 0 <= i < s.len() ==> #[trigger] h(s[i]) == a * f(s[i]) + b * g(s[i]),
    ensures
        sum_of(s, h) == a * sum_of(s, f) + b * sum_of(s, g),
    decreases s.len(),
{
    if s.len() > 0 {
        let t = s.drop_last();
        assert forall|i: int| 0 <= i < t.len() implies #[trigger] h(t[i]) == a * f(t[i]) + b * g(
            t[i],
        ) by {
            assert(t[i] == s[i]);
        }
        lemma_sum_of_linear(t, f, g, h, a, b);
        let x = s[s.len() - 1];
        let (sf, sg, fx, gx) = (sum_of(t, f), sum_of(t, g), f(x), g(x));
        assert(a * sf + b * sg + (a * fx + b * gx) == a * (sf + fx) + b * (sg + gx))
            by (nonlinear_arith);
    }
}

/// A sum scales with its terms: where each term of `h` is `a` times that of
/// `f`, so is the sum.
pub proof fn lemma_sum_of_scale<A>(s: Seq<A>, f: spec_fn(A) -> int, h: spec_fn(A) -> int, a: int)
    requires
        forall|i: int| 0 <= i < s.len() ==> #[trigger] h(s[i]) == a * f(s[i]),
    ensures
        sum_of(s, h) == a * sum_of(s, f),
    decreases s.len(),
{
    if s.len() > 0 {
        let t = s.drop_last();
        assert forall|i: int| 0 <= i < t.len() implies #[trigger] h(t[i]) == a * f(t[i]) by {
            assert(t[i] == s[i]);
        }
        lemma_sum_of_scale(t, f, h, a);
        let (sf, fx) = (sum_of(t, f), f(s[s.len() - 1]));
        assert(a * sf + a * fx == a * (sf + fx)) by (nonlinear_arith);
    }
}

proof fn lemma_rotated_norm(c: int, s: int, x: int, y: int)
    ensures
        (c * x - s * y) * (c * x - s * y) + (s * x + c * y) * (s * x + c * y) == (c * c + s * s) * (x
            * x + y * y),
{
    let (a1, b1, a2, b2) = (c * x, s * y, s * x, c * y);
    assert((a1 - b1) * (a1 - b1) == a1 * a1 - 2 * (a1 * b1) + b1 * b1) by (nonlinear_arith);
    assert((a2 + b2) * (a2 + b2) == a2 * a2 + 2 * (a2 * b2) + b2 * b2) by (nonlinear_arith);
    assert(a1 * b1 == a2 * b2) by (nonlinear_arith)
        requires
            a1 == c * x,
            b1 == s * y,
            a2 == s * x,
            b2 == c * y,
    ;
    assert(a1 * a1 == c * c * (x * x)) by (nonlinear_arith)
        requires
            a1 == c * x,
    ;
    assert(b1 * b1 == s * s * (y * y)) by (nonlinear_arith)
        requires
            b1 == s * y,
    ;
    assert(a2 * a2 == s * s * (x * x)) by (nonlinear_arith)
        requires
            a2 == s * x,
    ;
    assert(b2 * b2 == c * c * (y * y)) by (nonlinear_arith)
        requires
            b2 == c * y,
    ;
    assert((c * c + s * s) * (x * x + y * y) == c * c * (x * x) + c * c * (y * y) + s * s * (x * x)
        + s * s * (y * y)) by (nonlinear_arith);
}

/// Where the model side of every pair is the scene side turned and scaled by
/// the factor `c + i s` (as a complex number), the sums recover it: the
/// rotation sums are `c` and `s` times the scene spread, and the model spread
/// is `c² + s²` times the scene spread. So the estimated rotation is
/// `atan2(s, c)` and the estimated scale grows with `sqrt(c² + s²)`; with
/// `s == 0` and `c > 0` the rotation is zero.
pub proof fn lemma_similar_pairs(
    pairs: Seq<(Point2, Point2)>,
    sc: Centroid,
    mc: Centroid,
    c: int,
    s: int,
)
    requires
        forall|i: int|
            0 <= i < pairs.len() ==> {
                &&& dev_x(#[trigger] pairs[i].1, mc) == c * dev_x(pairs[i].0, sc) - s * dev_y(
                    pairs[i].0,
                    sc,
                )
                &&& dev_y(pairs[i].1, mc) == s * dev_x(pairs[i].0, sc) + c * dev_y(pairs[i].0, sc)
            },
    ensures
        cross_xx(pairs, sc, mc) + cross_yy(pairs, sc, mc) == c * spread_scene(pairs, sc),
        cross_xy(pairs, sc, mc) - cross_yx(pairs, sc, mc) == s * spread_scene(pairs, sc),
        spread_model(pairs, mc) == (c * c + s * s) * spread_scene(pairs, sc),
{
    let fxx = |pr: (Point2, Point2)| dev_x(pr.0, sc) * dev_x(pr.1, mc);
    let fxy = |pr: (Point2, Point2)| dev_x(pr.0, sc) * dev_y(pr.1, mc);
    let fyy = |pr: (Point2, Point2)| dev_y(pr.0, sc) * dev_y(pr.1, mc);
    let fyx = |pr: (Point2, Point2)| dev_y(pr.0, sc) * dev_x(pr.1, mc);
    let fs = |pr: (Point2, Point2)| scene_term(pr, sc);
    let fm = |pr: (Point2, Point2)|
        dev_x(pr.1, mc) * dev_x(pr.1, mc) + dev_y(pr.1, mc) * dev_y(pr.1, mc);
    let rot_c = |pr: (Point2, Point2)| fxx(pr) + fyy(pr);
    let rot_s = |pr: (Point2, Point2)| fxy(pr) - fyx(pr);
    assert forall|i: int| #![trigger pairs[i]] 0 <= i < pairs.len() implies {
        &&& rot_c(pairs[i]) == c * fs(pairs[i])
        &&& rot_s(pairs[i]) == s * fs(pairs[i])
        &&& fm(pairs[i]) == (c * c + s * s) * fs(pairs[i])
    } by {
        let ux = dev_x(pairs[i].0, sc);
        let uy = dev_y(pairs[i].0, sc);
        assert(ux * (c * ux - s * uy) + uy * (s * ux + c * uy) == c * (ux * ux + uy * uy))
            by (nonlinear_arith);
        assert(ux * (s * ux + c * uy) - uy * (c * ux - s * uy) == s * (ux * ux + uy * uy))
            by (nonlinear_arith);
        lemma_rotated_norm(c, s, ux, uy);
    }
    assert forall|i: int| 0 <= i < pairs.len() implies #[trigger] rot_c(pairs[i]) == 1 * fxx(
        pairs[i],
    ) + 1 * fyy(pairs[i]) by {}
    assert forall|i: int| 0 <= i < pairs.len() implies #[trigger] rot_s(pairs[i]) == 1 * fxy(
        pairs[i],
    ) + (-1) * fyx(pairs[i]) by {}
    lemma_sum_of_linear(pairs, fxx, fyy, rot_c, 1, 1);
    lemma_sum_of_linear(pairs, fxy, fyx, rot_s, 1, -1);
    lemma_sum_of_scale(pairs, fs, rot_c, c);
    lemma_sum_of_scale(pairs, fs, rot_s, s);
    lemma_sum_of_scale(pairs, fs, fm, c * c + s * s);
}

/// Aligning a cloud onto itself: every point is its own nearest point, the
/// error is zero (below any positive tolerance, so the first iteration ends it), the rotation sums give angle zero (`sxy == syx` and
/// `sxx + syy` is the positive spread), and model and scene spreads agree,
/// so the scale is one and the centroids coincide.
pub proof fn lemma_identical_clouds(s: Seq<Point2>, c: Centroid, tolerance: int)
    requires
        s.len() > 0,
        c.of(s),
    ensures
        error_total(s, s) == 0,
        tolerance > 0 ==> is_converged(s, s, tolerance),
        correspondences(s, s) == s.map_values(|p: Point2| (p, p)),
        matched_model(s, s) == s,
        cross_xy(correspondences(s, s), c, c) == cross_yx(correspondences(s, s), c, c),
        cross_xx(correspondences(s, s), c, c) + cross_yy(correspondences(s, s), c, c)
            == spread_scene(correspondences(s, s), c),
        spread_model(correspondences(s, s), c) == spread_scene(correspondences(s, s), c),
        !all_coincide(s) ==> spread_scene(correspondences(s, s), c) > 0,
{
    let pairs = correspondences(s, s);
    assert forall|i: int| 0 <= i < s.len() implies closest_in(#[trigger] s[i], s) == s[i] by {
        assert(s.contains(s[i]));
        lemma_closest_of_member(s[i], s);
    }
    assert(pairs =~= s.map_values(|p: Point2| (p, p)));
    assert(matched_model(s, s) =~= s);
    let fe = |p: Point2| sq_dist(p, closest_in(p, s));
    assert forall|i: int| 0 <= i < s.len() implies fe(#[trigger] s[i]) == 0 by {
        assert(closest_in(s[i], s) == s[i]);
        assert(sq_dist(s[i], s[i]) == 0) by (nonlinear_arith);
    }
    lemma_sum_of_zero(s, fe);
    assert(tolerance > 0 ==> tolerance * s.len() > 0) by (nonlinear_arith)
        requires
            s.len() > 0,
    ;
    assert forall|i: int| 0 <= i < pairs.len() implies {
        &&& dev_x(#[trigger] pairs[i].1, c) == 1 * dev_x(pairs[i].0, c) - 0 * dev_y(pairs[i].0, c)
        &&& dev_y(pairs[i].1, c) == 0 * dev_x(pairs[i].0, c) + 1 * dev_y(pairs[i].0, c)
    } by {
        assert(pairs[i].1 == pairs[i].0);
    }
    lemma_similar_pairs(pairs, c, c, 1, 0);
    lemma_spread_zero_iff_coincide(s, s, c);
    let fs = |pr: (Point2, Point2)| scene_term(pr, c);
    assert forall|i: int| 0 <= i < pairs.len() implies fs(#[trigger] pairs[i]) >= 0 by {
        let a = dev_x(pairs[i].0, c);
        let b = dev_y(pairs[i].0, c);
        assert(a * a + b * b >= 0) by (nonlinear_arith);
    }
    lemma_sum_of_nonneg(pairs, fs);
}

/// Why an alignment gave no result.
#[derive(Clone, Copy, Debug, PartialEq, Eq, Structural)]
pub enum AlignError {
    /// The scene cloud has no point.
    EmptyScene,
    /// The model cloud has no point.
    EmptyModel,
    /// All scene points coincide, so the scene has no spread to scale by.
    DegenerateScene,
}

/// The outcome of aligning a scene onto a model.
#[derive(Clone, Copy, Debug, PartialEq, Eq, Structural)]
pub struct Alignment {
    pub scene_centroid: Centroid,
    pub model_centroid: Centroid,
    pub sums: AlignmentSums,
    /// Sum over the scene of the squared distance to the nearest model point.
    pub error_total: i128,
    /// The mean squared error fell below the tolerance.
    pub converged: bool,
    /// Iterations run.
    pub iterations: usize,
}

/// The mean squared registration error lies below `tolerance`.
pub open spec fn is_converged(scene: Seq<Point2>, model: Seq<Point2>, tolerance: int) -> bool {
    error_total(scene, model) < tolerance * scene.len()
}

/// Iterative closest point registration of `scene` onto `model`.
///
/// Each iteration pairs every scene point with its nearest model point,
/// computes the centroids of the scene and of the matched model points, the
/// demeaned sums of the pairs about them, and the total squared error. The loop stops once the mean squared error is below
/// `tolerance` (in squared coordinate units), or after `max_iterations`.
/// The scene is not moved between iterations.
pub fn icp(scene: &PointCloud, model: &PointCloud, max_iterations: usize, tolerance: u64) -> (r:
    Result<Alignment, AlignError>)
    requires
        scene@.len() <= MAX_POINTS,
        max_iterations >= 1,
    ensures
        scene@.len() == 0 ==> r == Err::<Alignment, AlignError>(AlignError::EmptyScene),
        scene@.len() > 0 && model@.len() == 0 ==> r == Err::<Alignment, AlignError>(
            AlignError::EmptyModel,
        ),
        scene@.len() > 0 && model@.len() > 0 && all_coincide(scene@) ==> r == Err::<
            Alignment,
            AlignError,
        >(AlignError::DegenerateScene),
        scene@.len() > 0 && model@.len() > 0 && !all_coincide(scene@) ==> r is Ok,
        r matches Ok(a) ==> {
            &&& a.scene_centroid.of(scene@)
            &&& a.model_centroid.of(matched_model(scene@, model@))
            &&& a.sums.of(correspondences(scene@, model@), a.scene_centroid, a.model_centroid)
            &&& a.error_total == error_total(scene@, model@)
            &&& a.converged == is_converged(scene@, model@, tolerance as int)
            &&& a.iterations == if a.converged {
                1
            } else {
                max_iterations as int
            }
        },
{
    if scene.is_empty() {
        return Err(AlignError::EmptyScene);
    }
    if model.is_empty() {
        return Err(AlignError::EmptyModel);
    }
    let n = scene.len();
    let mut sc = Centroid { sum_x: 0, sum_y: 0, count: 1 };
    let mut mc = Centroid { sum_x: 0, sum_y: 0, count: 1 };
    let mut sums = AlignmentSums { sxx: 0, sxy: 0, syy: 0, syx: 0, scene_spread: 0, model_spread: 0 };
    let mut total: i128 = 0;
    let mut converged = false;
    let mut iterations: usize = 0;
    while iterations < max_iterations
        invariant_except_break
            !converged,
            iterations > 0 ==> !is_converged(scene@, model@, tolerance as int),
        invariant
            n == scene@.len(),
            0 < scene@.len() <= MAX_POINTS,
            0 < model@.len(),
            iterations <= max_iterations,
            max_iterations >= 1,
            iterations > 0 ==> {
                &&& sc.of(scene@)
                &&& mc.of(matched_model(scene@, model@))
                &&& sums.of(correspondences(scene@, model@), sc, mc)
                &&& total == error_total(scene@, model@)
            },
        ensures
            iterations > 0,
            converged == is_converged(scene@, model@, tolerance as int),
            iterations == if converged {
                1
            } else {
                max_iterations as int
            },
        decreases max_iterations - iterations,
    {
        let pairs = find_correspondences(scene, model);
        sc = match calculate_centroid(scene) {
            Some(c) => c,
            None => return Err(AlignError::EmptyScene),
        };
        let matched = PointCloud::new(model_side(&pairs));
        mc = match calculate_centroid(&matched) {
            Some(c) => c,
            None => return Err(AlignError::EmptyModel),
        };
        sums = estimate_alignment(&pairs, &sc, &mc);
        total = match calculate_error(scene, model) {
            Some(e) => e,
            None => return Err(AlignError::EmptyModel),
        };
        let first = iterations == 0;
        assert(0 <= tolerance * n <= 0x10_0000_0000_0000_0000_0000) by (nonlinear_arith)
            requires
                0 <= tolerance <= 0xffff_ffff_ffff_ffff,
                0 <= n <= 0x10_0000,
        ;
        iterations = iterations + 1;
        if total < tolerance as i128 * n as i128 {
            converged = true;
            assert(first);
            break;
        }
    }
    proof {
        lemma_spread_zero_iff_coincide(scene@, model@, sc);
    }
    if sums.scene_spread == 0 {
        return Err(AlignError::DegenerateScene);
    }
    Ok(
        Alignment {
            scene_centroid: sc,
            model_centroid: mc,
            sums,
            error_total: total,
            converged,
            iterations,
        },
    )
}

} // verus!
