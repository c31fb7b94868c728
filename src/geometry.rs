use vstd::prelude::*;

verus! {

/// Largest number of points in a cloud for which the exact sums of this
/// crate fit their integer types.
pub const MAX_POINTS: usize = 1048576;

/// Bound on the absolute value of a coordinate.
pub open spec fn coord_bound() -> int {
    0x8000_0000
}

/// A point of the plane, with integer coordinates.
#[derive(Clone, Copy, Debug, PartialEq, Eq, Structural)]
pub struct Point2 {
    pub x: i32,
    pub y: i32,
}

impl Point2 {
    pub fn new(x: i32, y: i32) -> (r: Point2)
        ensures
            r.x == x,
            r.y == y,
    {
        Point2 { x, y }
    }
}

/// An ordered sequence of points. The order is kept as given.
#[derive(Clone, Debug)]
pub struct PointCloud {
    points: Vec<Point2>,
}

impl View for PointCloud {
    type V = Seq<Point2>;

    closed spec fn view(&self) -> Seq<Point2> {
        self.points@
    }
}

impl PointCloud {
    pub fn new(points: Vec<Point2>) -> (r: PointCloud)
        ensures
            r@ == points@,
    {
        PointCloud { points }
    }

    pub fn len(&self) -> (r: usize)
        ensures
            r == self@.len(),
    {
        self.points.len()
    }

    pub fn is_empty(&self) -> (r: bool)
        ensures
            r == (self@.len() == 0),
    {
        self.points.len() == 0
    }

    pub fn point(&self, i: usize) -> (r: Point2)
        requires
            i < self@.len(),
        ensures
            r == self@[i as int],
    {
        self.points[i]
    }

    pub fn points(&self) -> (r: &Vec<Point2>)
        ensures
            r@ == self@,
    {
        &self.points
    }
}

/// Sum of `f` over the elements of `s`.
pub open spec fn sum_of<A>(s: Seq<A>, f: spec_fn(A) -> int) -> int
    decreases s.len(),
{
    if s.len() == 0 {
        0
    } else {
        sum_of(s.drop_last(), f) + f(s.last())
    }
}

/// The prefix of length `i + 1` is the prefix of length `i` followed by `s[i]`.
pub proof fn lemma_take_step<A>(s: Seq<A>, i: int)
    requires
        0 <= i < s.len(),
    ensures
        s.take(i + 1).drop_last() == s.take(i),
        s.take(i + 1).last() == s[i],
        s.take(i + 1).len() == i + 1,
{
    assert(s.take(i + 1).drop_last() =~= s.take(i));
}

/// A sum whose terms all vanish is zero.
pub proof fn lemma_sum_of_zero<A>(s: Seq<A>, f: spec_fn(A) -> int)
    requires
        forall|i: int| 0 <= i < s.len() ==> f(#[trigger] s[i]) == 0,
    ensures
        sum_of(s, f) == 0,
    decreases s.len(),
{
    if s.len() > 0 {
        assert forall|i: int| 0 <= i < s.drop_last().len() implies f(#[trigger] s.drop_last()[i])
            == 0 by {
            assert(s.drop_last()[i] == s[i]);
        }
        lemma_sum_of_zero(s.drop_last(), f);
        assert(f(s[s.len() - 1]) == 0);
    }
}

pub open spec fn sum_x(s: Seq<Point2>) -> int {
    sum_of(s, |p: Point2| p.x as int)
}

pub open spec fn sum_y(s: Seq<Point2>) -> int {
    sum_of(s, |p: Point2| p.y as int)
}

/// The arithmetic mean of a cloud, held exactly as coordinate sums and a count:
/// the mean is `(sum_x / count, sum_y / count)`.
#[derive(Clone, Copy, Debug, PartialEq, Eq, Structural)]
pub struct Centroid {
    pub sum_x: i128,
    pub sum_y: i128,
    pub count: usize,
}

impl Centroid {
    /// The count is a possible size of a cloud and the sums fit its points.
    pub open spec fn wf(&self) -> bool {
        &&& 0 < self.count <= MAX_POINTS
        &&& -self.count * coord_bound() <= self.sum_x <= self.count * coord_bound()
        &&& -self.count * coord_bound() <= self.sum_y <= self.count * coord_bound()
    }

    /// This is the centroid of the points `s`.
    pub open spec fn of(&self, s: Seq<Point2>) -> bool {
        &&& self.count == s.len()
        &&& self.sum_x == sum_x(s)
        &&& self.sum_y == sum_y(s)
    }
}

/// The centroid of a cloud, or `None` for an empty cloud.
pub fn calculate_centroid(cloud: &PointCloud) -> (r: Option<Centroid>)
    ensures
        r is None <==> cloud@.len() == 0,
        r matches Some(c) ==> c.of(cloud@),
        r matches Some(c) ==> (cloud@.len() <= MAX_POINTS ==> c.wf()),
{
    let pts = cloud.points();
    let n = pts.len();
    if n == 0 {
        return None;
    }
    let mut sx: i128 = 0;
    let mut sy: i128 = 0;
    let mut i: usize = 0;
    while i < n
        invariant
            n == pts@.len(),
            pts@ == cloud@,
            i <= n,
            sx == sum_x(pts@.take(i as int)),
            sy == sum_y(pts@.take(i as int)),
            -i * coord_bound() <= sx <= i * coord_bound(),
            -i * coord_bound() <= sy <= i * coord_bound(),
        decreases n - i,
    {
        let p = pts[i];
        proof {
            lemma_take_step(pts@, i as int);
        }
        sx = sx + p.x as i128;
        sy = sy + p.y as i128;
        i = i + 1;
    }
    assert(pts@.take(n as int) =~= pts@);
    Some(Centroid { sum_x: sx, sum_y: sy, count: n })
}

/// A cloud of `n` copies of one point has that point as its centroid, exactly.
pub proof fn lemma_centroid_of_identical(s: Seq<Point2>, a: Point2)
    requires
        forall|i: int| 0 <= i < s.len() ==> s[i] == a,
    ensures
        sum_x(s) == s.len() * a.x,
        sum_y(s) == s.len() * a.y,
    decreases s.len(),
{
    if s.len() > 0 {
        let t = s.drop_last();
        assert forall|i: int| 0 <= i < t.len() implies t[i] == a by {
            assert(t[i] == s[i]);
        }
        lemma_centroid_of_identical(t, a);
        assert(s.last() == a);
        assert(s.len() * a.x == t.len() * a.x + a.x) by (nonlinear_arith)
            requires
                s.len() == t.len() + 1,
        ;
        assert(s.len() * a.y == t.len() * a.y + a.y) by (nonlinear_arith)
            requires
                s.len() == t.len() + 1,
        ;
    }
}

/// The centroid that `calculate_centroid` returns for `n` copies of `(a, b)`
/// is `(a, b)`.
pub proof fn lemma_calculate_centroid_identical(s: Seq<Point2>, a: Point2, c: Centroid)
    requires
        s.len() > 0,
        forall|i: int| 0 <= i < s.len() ==> s[i] == a,
        c.of(s),
    ensures
        c.sum_x == c.count * a.x,
        c.sum_y == c.count * a.y,
        c.sum_x as int / c.count as int == a.x,
        c.sum_y as int / c.count as int == a.y,
{
    lemma_centroid_of_identical(s, a);
    let n = c.count as int;
    assert((n * a.x) / n == a.x) by (nonlinear_arith)
        requires
            n > 0,
    ;
    assert((n * a.y) / n == a.y) by (nonlinear_arith)
        requires
            n > 0,
    ;
}

} // verus!
