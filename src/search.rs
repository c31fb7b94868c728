use vstd::prelude::*;
use crate::geometry::{Point2, PointCloud, sum_of, lemma_take_step};

verus! {

/// Squared Euclidean distance between two points.
pub open spec fn sq_dist(a: Point2, b: Point2) -> int {
    (a.x - b.x) * (a.x - b.x) + (a.y - b.y) * (a.y - b.y)
}

/// `s[k]` is nearest to `p` among the points of `s`, and no earlier point is
/// as near.
pub open spec fn is_first_nearest(p: Point2, s: Seq<Point2>, k: int) -> bool {
    &&& 0 <= k < s.len()
    &&& forall|j: int| 0 <= j < s.len() ==> sq_dist(p, s[k]) <= #[trigger] sq_dist(p, s[j])
    &&& forall|j: int| 0 <= j < k ==> sq_dist(p, s[k]) < #[trigger] sq_dist(p, s[j])
}

/// The point of a non-empty `s` nearest to `p`; of equally near points the
/// first.
pub open spec fn closest_in(p: Point2, s: Seq<Point2>) -> Point2
    decreases s.len(),
{
    if s.len() <= 1 {
        s[0]
    } else {
        let c = closest_in(p, s.drop_last());
        if sq_dist(p, s.last()) < sq_dist(p, c) {
            s.last()
        } else {
            c
        }
    }
}

/// Nearest-neighbour search: `closest_in` is the first point of the cloud at
/// the least squared distance, and no point of the cloud is nearer.
pub proof fn lemma_closest_is_nearest(p: Point2, s: Seq<Point2>)
    requires
        s.len() > 0,
    ensures
        exists|k: int| is_first_nearest(p, s, k) && s[k] == closest_in(p, s),
        s.contains(closest_in(p, s)),
        forall|j: int| 0 <= j < s.len() ==> sq_dist(p, closest_in(p, s)) <= #[trigger] sq_dist(p, s[j]),
    decreases s.len(),
{
    if s.len() == 1 {
        assert(is_first_nearest(p, s, 0) && s[0] == closest_in(p, s));
    } else {
        let t = s.drop_last();
        lemma_closest_is_nearest(p, t);
        let k0 = choose|k: int| is_first_nearest(p, t, k) && t[k] == closest_in(p, t);
        let n = s.len() - 1;
        if sq_dist(p, s.last()) < sq_dist(p, closest_in(p, t)) {
            assert forall|j: int| 0 <= j < s.len() implies sq_dist(p, s[n]) <= #[trigger] sq_dist(p, s[j]) by {
                if j < n {
                    assert(s[j] == t[j]);
                    assert(sq_dist(p, t[k0]) <= sq_dist(p, t[j]));
                }
            }
            assert forall|j: int| 0 <= j < n implies sq_dist(p, s[n]) < #[trigger] sq_dist(p, s[j]) by {
                assert(s[j] == t[j]);
                assert(sq_dist(p, t[k0]) <= sq_dist(p, t[j]));
            }
            assert(is_first_nearest(p, s, n) && s[n] == closest_in(p, s));
        } else {
            assert forall|j: int| 0 <= j < s.len() implies sq_dist(p, s[k0]) <= #[trigger] sq_dist(p, s[j]) by {
                if j < n {
                    assert(s[j] == t[j]);
                    assert(sq_dist(p, t[k0]) <= sq_dist(p, t[j]));
                }
            }
            assert forall|j: int| 0 <= j < k0 implies sq_dist(p, s[k0]) < #[trigger] sq_dist(p, s[j]) by {
                assert(s[j] == t[j]);
                assert(sq_dist(p, t[k0]) < sq_dist(p, t[j]));
            }
            assert(s[k0] == t[k0]);
            assert(is_first_nearest(p, s, k0) && s[k0] == closest_in(p, s));
        }
    }
}

/// A point of the cloud is its own nearest point.
pub proof fn lemma_closest_of_member(p: Point2, s: Seq<Point2>)
    requires
        s.contains(p),
    ensures
        closest_in(p, s) == p,
{
    lemma_closest_is_nearest(p, s);
    let j = choose|j: int| 0 <= j < s.len() && s[j] == p;
    let c = closest_in(p, s);
    assert(s[j] == p);
    assert(sq_dist(p, p) == 0) by (nonlinear_arith);
    assert(sq_dist(p, c) <= sq_dist(p, s[j]));
    assert(sq_dist(p, c) <= 0);
    assert((p.x - c.x) * (p.x - c.x) >= 0) by (nonlinear_arith);
    assert((p.y - c.y) * (p.y - c.y) >= 0) by (nonlinear_arith);
    assert((p.x - c.x) * (p.x - c.x) == 0 ==> p.x == c.x) by (nonlinear_arith);
    assert((p.y - c.y) * (p.y - c.y) == 0 ==> p.y == c.y) by (nonlinear_arith);
}

/// Squared distance between two points, exactly.
fn squared_distance(a: Point2, b: Point2) -> (r: i128)
    ensures
        r == sq_dist(a, b),
        0 <= r <= 0x2_0000_0000_0000_0000,
{
    let dx: i128 = a.x as i128 - b.x as i128;
    let dy: i128 = a.y as i128 - b.y as i128;
    assert(0 <= dx * dx <= 0x1_0000_0000_0000_0000) by (nonlinear_arith)
        requires
            -0x1_0000_0000 <= dx <= 0x1_0000_0000,
    ;
    assert(0 <= dy * dy <= 0x1_0000_0000_0000_0000) by (nonlinear_arith)
        requires
            -0x1_0000_0000 <= dy <= 0x1_0000_0000,
    ;
    dx * dx + dy * dy
}

/// The point of `model` nearest to `point` under Euclidean distance; of equally
/// near points the first. `None` when the model is empty.
pub fn find_closest_point(point: Point2, model: &PointCloud) -> (r: Option<Point2>)
    ensures
        r is None <==> model@.len() == 0,
        r matches Some(q) ==> q == closest_in(point, model@),
        r matches Some(q) ==> exists|k: int| is_first_nearest(point, model@, k) && model@[k] == q,
{
    let pts = model.points();
    if pts.len() == 0 {
        return None;
    }
    let mut best = pts[0];
    let mut best_d = squared_distance(point, best);
    let mut i: usize = 1;
    while i < pts.len()
        invariant
            1 <= i <= pts@.len(),
            pts@ == model@,
            best == closest_in(point, pts@.take(i as int)),
            best_d == sq_dist(point, best),
        decreases pts@.len() - i,
    {
        let q = pts[i];
        let d = squared_distance(point, q);
        proof {
            lemma_take_step(pts@, i as int);
        }
        if d < best_d {
            best = q;
            best_d = d;
        }
        i = i + 1;
    }
    assert(pts@.take(pts@.len() as int) =~= pts@);
    proof {
        lemma_closest_is_nearest(point, model@);
    }
    Some(best)
}

/// Sum over the scene of the squared distance from each point to its nearest
/// model point.
pub open spec fn error_total(scene: Seq<Point2>, model: Seq<Point2>) -> int {
    sum_of(scene, |p: Point2| sq_dist(p, closest_in(p, model)))
}

/// Total squared registration error: the sum over the scene of the squared
/// distance from each point to its nearest model point. The mean squared error
/// is this total divided by the number of scene points. `None` when either
/// cloud is empty.
pub fn calculate_error(scene: &PointCloud, model: &PointCloud) -> (r: Option<i128>)
    requires
        scene@.len() < 0x4000_0000_0000_0000,
    ensures
        r is None <==> scene@.len() == 0 || model@.len() == 0,
        r matches Some(e) ==> e == error_total(scene@, model@),
{
    let pts = scene.points();
    if pts.len() == 0 || model.is_empty() {
        return None;
    }
    let mut total: i128 = 0;
    let mut i: usize = 0;
    while i < pts.len()
        invariant
            i <= pts@.len(),
            pts@ == scene@,
            pts@.len() < 0x4000_0000_0000_0000,
            model@.len() > 0,
            total == error_total(pts@.take(i as int), model@),
            0 <= total <= i * 0x2_0000_0000_0000_0000,
        decreases pts@.len() - i,
    {
        let p = pts[i];
        let q = match find_closest_point(p, model) {
            Some(q) => q,
            None => return None,
        };
        let d = squared_distance(p, q);
        proof {
            lemma_take_step(pts@, i as int);
        }
        total = total + d;
        i = i + 1;
    }
    assert(pts@.take(pts@.len() as int) =~= pts@);
    Some(total)
}

/// Each scene point paired with its nearest model point.
pub open spec fn correspondences(scene: Seq<Point2>, model: Seq<Point2>) -> Seq<(Point2, Point2)> {
    scene.map_values(|p: Point2| (p, closest_in(p, model)))
}

/// Pairs each scene point, in order, with its nearest model point.
pub fn find_correspondences(scene: &PointCloud, model: &PointCloud) -> (r: Vec<(Point2, Point2)>)
    requires
        model@.len() > 0,
    ensures
        r@ == correspondences(scene@, model@),
{
    let pts = scene.points();
    let mut pairs: Vec<(Point2, Point2)> = Vec::new();
    let mut i: usize = 0;
    while i < pts.len()
        invariant
            i <= pts@.len(),
            pts@ == scene@,
            model@.len() > 0,
            pairs@ == correspondences(pts@.take(i as int), model@),
        decreases pts@.len() - i,
    {
        let p = pts[i];
        let q = match find_closest_point(p, model) {
            Some(q) => q,
            None => return pairs,
        };
        pairs.push((p, q));
        proof {
            lemma_take_step(pts@, i as int);
        }
        assert(pairs@ =~= correspondences(pts@.take(i + 1), model@));
        i = i + 1;
    }
    assert(pts@.take(pts@.len() as int) =~= pts@);
    pairs
}

/// The model side of each scene point's pair, in scene order.
pub open spec fn matched_model(scene: Seq<Point2>, model: Seq<Point2>) -> Seq<Point2> {
    correspondences(scene, model).map_values(|pr: (Point2, Point2)| pr.1)
}

/// The model points of `pairs`, in order.
pub fn model_side(pairs: &Vec<(Point2, Point2)>) -> (r: Vec<Point2>)
    ensures
        r@ == pairs@.map_values(|pr: (Point2, Point2)| pr.1),
{
    let mut r: Vec<Point2> = Vec::new();
    let mut i: usize = 0;
    while i < pairs.len()
        invariant
            i <= pairs@.len(),
            r@ == pairs@.take(i as int).map_values(|pr: (Point2, Point2)| pr.1),
        decreases pairs@.len() - i,
    {
        r.push(pairs[i].1);
        proof {
            lemma_take_step(pairs@, i as int);
        }
        assert(r@ =~= pairs@.take(i + 1).map_values(|pr: (Point2, Point2)| pr.1));
        i = i + 1;
    }
    assert(pairs@.take(pairs@.len() as int) =~= pairs@);
    r
}

} // verus!
