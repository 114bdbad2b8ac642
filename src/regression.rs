//! An online least-squares line fit, kept exactly in integer arithmetic.
use vstd::prelude::*;
use vstd::arithmetic::div_mod::lemma_div_multiples_vanish;

verus! {

/// The most observations one accumulator takes.
pub const MAX_COUNT: i64 = 65536;

/// The largest magnitude of an x value (a day offset).
pub const MAX_X: i64 = 1048576;

/// The largest magnitude of a y value (a fixed-point amount).
pub const MAX_Y: i64 = 4294967296;

/// An exact fraction `num / den`.
#[derive(Clone, Copy, Debug, PartialEq, Eq, Structural)]
pub struct Ratio {
    pub num: i128,
    pub den: i128,
}

/// A fraction as a pair of integers.
pub open spec fn pair_of(r: Option<Ratio>) -> Option<(int, int)> {
    match r {
        Some(q) => Some((q.num as int, q.den as int)),
        None => None,
    }
}

pub open spec fn sum(s: Seq<int>) -> int
    decreases s.len(),
{
    if s.len() == 0 {
        0
    } else {
        sum(s.drop_last()) + s.last()
    }
}

/// The sum of the products of corresponding elements.
pub open spec fn dot(a: Seq<int>, b: Seq<int>) -> int
    decreases a.len(),
{
    if a.len() == 0 || b.len() == 0 {
        0
    } else {
        dot(a.drop_last(), b.drop_last()) + a.last() * b.last()
    }
}

/// `n` times the sum of products of deviations from the means:
/// `n * sum(a * b) - sum(a) * sum(b)`.
pub open spec fn comoment(a: Seq<int>, b: Seq<int>) -> int {
    a.len() * dot(a, b) - sum(a) * sum(b)
}

pub open spec fn xs(pts: Seq<(int, int)>) -> Seq<int> {
    pts.map_values(|p: (int, int)| p.0)
}

pub open spec fn ys(pts: Seq<(int, int)>) -> Seq<int> {
    pts.map_values(|p: (int, int)| p.1)
}

/// Whether the points allow a fitted line: at least two of them, not all on
/// one x value.
pub open spec fn fit_defined(pts: Seq<(int, int)>) -> bool {
    pts.len() >= 2 && comoment(xs(pts), xs(pts)) != 0
}

/// The least-squares slope, in closed form over all the points at once:
/// `(n Sxy - Sx Sy) / (n Sxx - Sx Sx)`.
pub open spec fn slope_of(pts: Seq<(int, int)>) -> Option<(int, int)> {
    if fit_defined(pts) {
        Some((comoment(xs(pts), ys(pts)), comoment(xs(pts), xs(pts))))
    } else {
        None
    }
}

/// The least-squares intercept `(Sy - slope Sx) / n`, in closed form.
pub open spec fn intercept_of(pts: Seq<(int, int)>) -> Option<(int, int)> {
    if fit_defined(pts) {
        let d = comoment(xs(pts), xs(pts));
        let c = comoment(xs(pts), ys(pts));
        Some((sum(ys(pts)) * d - c * sum(xs(pts)), pts.len() * d))
    } else {
        None
    }
}

/// The value of the fitted line at `x`: `intercept + slope * x`.
pub open spec fn prediction_of(pts: Seq<(int, int)>, x: int) -> Option<(int, int)> {
    if fit_defined(pts) {
        let d = comoment(xs(pts), xs(pts));
        let c = comoment(xs(pts), ys(pts));
        let n = pts.len() as int;
        Some((sum(ys(pts)) * d + c * (n * x - sum(xs(pts))), n * d))
    } else {
        None
    }
}

pub open spec fn point_in_range(p: (int, int)) -> bool {
    -MAX_X <= p.0 <= MAX_X && -MAX_Y <= p.1 <= MAX_Y
}


proof fn lemma_push_parts(pts: Seq<(int, int)>, p: (int, int))
    ensures
        xs(pts.push(p)) == xs(pts).push(p.0),
        ys(pts.push(p)) == ys(pts).push(p.1),
{
    assert(xs(pts.push(p)) =~= xs(pts).push(p.0));
    assert(ys(pts.push(p)) =~= ys(pts).push(p.1));
}

proof fn lemma_sum_push(a: Seq<int>, u: int)
    ensures
        sum(a.push(u)) == sum(a) + u,
{
    assert(a.push(u).drop_last() =~= a);
}

proof fn lemma_dot_push(a: Seq<int>, b: Seq<int>, u: int, v: int)
    requires
        a.len() == b.len(),
    ensures
        dot(a.push(u), b.push(v)) == dot(a, b) + u * v,
{
    assert(a.push(u).drop_last() =~= a);
    assert(b.push(v).drop_last() =~= b);
}

proof fn lemma_expand_product(p: int, q: int, r: int, s: int)
    ensures
        (p - q) * (r - s) == p * r - p * s - q * r + q * s,
{
    assert((p - q) * (r - s) == p * r - p * s - q * r + q * s) by (nonlinear_arith);
}

proof fn lemma_distribute6(n: int, a: int, b: int, c: int, d: int, e: int, f: int)
    ensures
        n * (a + b + c - d - e - f) == n * a + n * b + n * c - n * d - n * e - n * f,
{
    assert(n * (a + b + c - d - e - f) == n * a + n * b + n * c - n * d - n * e - n * f)
        by (nonlinear_arith);
}

proof fn lemma_mul3(a: int, b: int, c: int)
    ensures
        (a * b) * c == a * (b * c),
        a * (b * c) == b * (a * c),
{
    assert((a * b) * c == a * (b * c)) by (nonlinear_arith);
    assert(a * (b * c) == b * (a * c)) by (nonlinear_arith);
}

proof fn lemma_comoment_identity(n: int, sa: int, sb: int, d: int, u: int, v: int)
    ensures
        n * ((n + 1) * (d + u * v) - (sa + u) * (sb + v)) == (n + 1) * (n * d - sa * sb) + (n * u
            - sa) * (n * v - sb),
{
    let uv = u * v;
    assert((sa + u) * (sb + v) == sa * sb + sa * v + u * sb + uv) by (nonlinear_arith)
        requires
            uv == u * v,
    ;
    assert((n + 1) * (d + uv) == n * d + d + n * uv + uv) by (nonlinear_arith);
    lemma_expand_product(n * u, sa, n * v, sb);
    lemma_mul3(n, u, n * v);
    lemma_mul3(u, n, v);
    lemma_mul3(n, u, sb);
    lemma_mul3(sa, n, v);
    assert((n * u) * (n * v) == n * (n * uv));
    assert((n + 1) * (n * d - sa * sb) == n * (n * d) + n * d - n * (sa * sb) - sa * sb)
        by (nonlinear_arith);
    lemma_distribute6(n, n * d, d, n * uv, sa * sb, sa * v, u * sb);
}

/// The incremental update agrees with the closed form over all points: with
/// `n` points before, the co-moment of all points times `n` is `(n + 1)`
/// times the co-moment before plus the product of the new point's
/// deviations from the running sums, `n u - sum(a)` and `n v - sum(b)`.
pub proof fn lemma_comoment_push(a: Seq<int>, b: Seq<int>, u: int, v: int)
    requires
        a.len() == b.len(),
    ensures
        a.len() * comoment(a.push(u), b.push(v)) == (a.len() + 1) * comoment(a, b) + (a.len() * u
            - sum(a)) * (a.len() * v - sum(b)),
{
    lemma_sum_push(a, u);
    lemma_sum_push(b, v);
    lemma_dot_push(a, b, u, v);
    lemma_comoment_identity(a.len() as int, sum(a), sum(b), dot(a, b), u, v);
}

proof fn lemma_comoment_nonneg(a: Seq<int>)
    ensures
        comoment(a, a) >= 0,
    decreases a.len(),
{
    if a.len() > 0 {
        let p = a.drop_last();
        let u = a.last();
        assert(p.push(u) =~= a);
        lemma_comoment_nonneg(p);
        lemma_comoment_push(p, p, u, u);
        let n = p.len() as int;
        let e = n * u - sum(p);
        let c = comoment(a, a);
        if n == 0 {
            lemma_sum_push(p, u);
            lemma_dot_push(p, p, u, u);
            assert(sum(p) == 0);
            assert(dot(p, p) == 0);
            assert(c == 1 * (u * u) - u * u);
        } else {
            assert(e * e >= 0) by (nonlinear_arith);
            assert((n + 1) * comoment(p, p) >= 0) by (nonlinear_arith)
                requires
                    n > 0,
                    comoment(p, p) >= 0,
            ;
            assert(c >= 0) by (nonlinear_arith)
                requires
                    n * c == (n + 1) * comoment(p, p) + e * e,
                    n > 0,
                    (n + 1) * comoment(p, p) >= 0,
                    e * e >= 0,
            ;
        }
    }
}

proof fn lemma_sum_bound(a: Seq<int>, m: int)
    requires
        forall|i: int| 0 <= i < a.len() ==> -m <= #[trigger] a[i] <= m,
    ensures
        -(a.len() * m) <= sum(a) <= a.len() * m,
    decreases a.len(),
{
    if a.len() > 0 {
        let p = a.drop_last();
        assert forall|i: int| 0 <= i < p.len() implies -m <= #[trigger] p[i] <= m by {
            assert(p[i] == a[i]);
        }
        lemma_sum_bound(p, m);
        assert(-m <= a[a.len() - 1] <= m);
        assert((p.len() + 1) * m == p.len() * m + m) by (nonlinear_arith);
    }
}

proof fn lemma_abs_mul_bound(u: int, v: int, mu: int, mv: int)
    requires
        -mu <= u <= mu,
        -mv <= v <= mv,
    ensures
        -(mu * mv) <= u * v <= mu * mv,
{
    assert(-(mu * mv) <= u * v <= mu * mv) by (nonlinear_arith)
        requires
            -mu <= u <= mu,
            -mv <= v <= mv,
    ;
}

proof fn lemma_dot_bound(a: Seq<int>, b: Seq<int>, ma: int, mb: int)
    requires
        a.len() == b.len(),
        forall|i: int| 0 <= i < a.len() ==> -ma <= #[trigger] a[i] <= ma,
        forall|i: int| 0 <= i < b.len() ==> -mb <= #[trigger] b[i] <= mb,
    ensures
        -(a.len() * (ma * mb)) <= dot(a, b) <= a.len() * (ma * mb),
    decreases a.len(),
{
    if a.len() > 0 {
        let pa = a.drop_last();
        let pb = b.drop_last();
        assert forall|i: int| 0 <= i < pa.len() implies -ma <= #[trigger] pa[i] <= ma by {
            assert(pa[i] == a[i]);
        }
        assert forall|i: int| 0 <= i < pb.len() implies -mb <= #[trigger] pb[i] <= mb by {
            assert(pb[i] == b[i]);
        }
        lemma_dot_bound(pa, pb, ma, mb);
        assert(-ma <= a[a.len() - 1] <= ma);
        assert(-mb <= b[b.len() - 1] <= mb);
        lemma_abs_mul_bound(a.last(), b.last(), ma, mb);
        let k = ma * mb;
        assert((pa.len() + 1) * k == pa.len() * k + k) by (nonlinear_arith);
    }
}

pub open spec fn comoment_bound(ma: int, mb: int) -> int {
    2 * MAX_COUNT * MAX_COUNT * ma * mb
}

proof fn lemma_comoment_bound(n: int, sa: int, sb: int, dab: int, ma: int, mb: int)
    requires
        0 <= n <= MAX_COUNT,
        0 <= ma,
        0 <= mb,
        -(n * ma) <= sa <= n * ma,
        -(n * mb) <= sb <= n * mb,
        -(n * (ma * mb)) <= dab <= n * (ma * mb),
    ensures
        -comoment_bound(ma, mb) <= n * dab - sa * sb <= comoment_bound(ma, mb),
{
    let k = MAX_COUNT * MAX_COUNT * ma * mb;
    lemma_abs_mul_bound(n, dab, n, n * (ma * mb));
    lemma_abs_mul_bound(sa, sb, n * ma, n * mb);
    assert(n * (n * (ma * mb)) <= k && (n * ma) * (n * mb) <= k) by (nonlinear_arith)
        requires
            0 <= n <= MAX_COUNT,
            0 <= ma,
            0 <= mb,
            k == MAX_COUNT * MAX_COUNT * ma * mb,
    ;
    assert(comoment_bound(ma, mb) == 2 * k) by (nonlinear_arith)
        requires
            k == MAX_COUNT * MAX_COUNT * ma * mb,
    ;
}

/// Bounds on the sums and co-moments of points in range, in terms of the count.
proof fn lemma_totals_bound(pts: Seq<(int, int)>)
    requires
        pts.len() <= MAX_COUNT,
        forall|i: int| 0 <= i < pts.len() ==> point_in_range(#[trigger] pts[i]),
    ensures
        -(pts.len() * MAX_X) <= sum(xs(pts)) <= pts.len() * MAX_X,
        -(pts.len() * MAX_Y) <= sum(ys(pts)) <= pts.len() * MAX_Y,
        0 <= comoment(xs(pts), xs(pts)) <= comoment_bound(MAX_X as int, MAX_X as int),
        -comoment_bound(MAX_X as int, MAX_Y as int) <= comoment(xs(pts), ys(pts))
            <= comoment_bound(MAX_X as int, MAX_Y as int),
        -comoment_bound(MAX_Y as int, MAX_Y as int) <= comoment(ys(pts), ys(pts))
            <= comoment_bound(MAX_Y as int, MAX_Y as int),
{
    let a = xs(pts);
    let b = ys(pts);
    let n = pts.len() as int;
    assert forall|i: int| 0 <= i < a.len() implies -MAX_X <= #[trigger] a[i] <= MAX_X by {
        assert(point_in_range(pts[i]));
    }
    assert forall|i: int| 0 <= i < b.len() implies -MAX_Y <= #[trigger] b[i] <= MAX_Y by {
        assert(point_in_range(pts[i]));
    }
    lemma_sum_bound(a, MAX_X as int);
    lemma_sum_bound(b, MAX_Y as int);
    lemma_dot_bound(a, a, MAX_X as int, MAX_X as int);
    lemma_dot_bound(a, b, MAX_X as int, MAX_Y as int);
    lemma_dot_bound(b, b, MAX_Y as int, MAX_Y as int);
    lemma_comoment_nonneg(a);
    lemma_comoment_bound(n, sum(a), sum(a), dot(a, a), MAX_X as int, MAX_X as int);
    lemma_comoment_bound(n, sum(a), sum(b), dot(a, b), MAX_X as int, MAX_Y as int);
    lemma_comoment_bound(n, sum(b), sum(b), dot(b, b), MAX_Y as int, MAX_Y as int);
}

proof fn lemma_single_point(pts: Seq<(int, int)>, p: (int, int))
    requires
        pts.len() == 0,
    ensures
        comoment(xs(pts.push(p)), xs(pts.push(p))) == 0,
        comoment(xs(pts.push(p)), ys(pts.push(p))) == 0,
        comoment(ys(pts.push(p)), ys(pts.push(p))) == 0,
{
    let np = pts.push(p);
    lemma_push_parts(pts, p);
    let (ax, ay) = (xs(pts), ys(pts));
    lemma_sum_push(ax, p.0);
    lemma_sum_push(ay, p.1);
    lemma_dot_push(ax, ax, p.0, p.0);
    lemma_dot_push(ax, ay, p.0, p.1);
    lemma_dot_push(ay, ay, p.1, p.1);
    assert(sum(ax) == 0 && sum(ay) == 0);
    assert(dot(ax, ax) == 0 && dot(ax, ay) == 0 && dot(ay, ay) == 0);
    assert(xs(np).len() == 1);
}

proof fn lemma_sum_bound_count(pts: Seq<(int, int)>)
    requires
        pts.len() <= MAX_COUNT,
        forall|i: int| 0 <= i < pts.len() ==> point_in_range(#[trigger] pts[i]),
    ensures
        -(MAX_COUNT * MAX_X) <= sum(xs(pts)) <= MAX_COUNT * MAX_X,
        -(MAX_COUNT * MAX_Y) <= sum(ys(pts)) <= MAX_COUNT * MAX_Y,
{
    lemma_totals_bound(pts);
    let n = pts.len() as int;
    assert(n * MAX_X <= MAX_COUNT * MAX_X && n * MAX_Y <= MAX_COUNT * MAX_Y) by (nonlinear_arith)
        requires
            0 <= n <= MAX_COUNT,
    ;
}

/// Exact division of `d * k` by `d`.
fn div_exact(a: i128, d: i128, Ghost(k): Ghost<int>) -> (q: i128)
    requires
        d > 0,
        a == d * k,
    ensures
        q == k,
{
    proof {
        lemma_div_multiples_vanish(k, d as int);
        assert(-(a as int) <= k <= a || (a as int) <= k <= -a) by (nonlinear_arith)
            requires
                d > 0,
                a == d * k,
        ;
    }
    match a.checked_div_euclid(d) {
        Some(q) => q,
        None => {
            proof {
                assert(false);
            }
            0
        },
    }
}

proof fn lemma_constant_sums(a: Seq<int>, c: int)
    requires
        forall|i: int| 0 <= i < a.len() ==> #[trigger] a[i] == c,
    ensures
        sum(a) == a.len() * c,
        dot(a, a) == a.len() * (c * c),
    decreases a.len(),
{
    if a.len() > 0 {
        let p = a.drop_last();
        assert forall|i: int| 0 <= i < p.len() implies #[trigger] p[i] == c by {
            assert(p[i] == a[i]);
        }
        lemma_constant_sums(p, c);
        assert(a[a.len() - 1] == c);
        assert((p.len() + 1) * c == p.len() * c + c) by (nonlinear_arith);
        assert((p.len() + 1) * (c * c) == p.len() * (c * c) + c * c) by (nonlinear_arith);
    }
}

/// With fewer than two distinct x values there is no fitted line: slope,
/// intercept and every prediction are undefined.
pub proof fn lemma_one_x_value_undefined(pts: Seq<(int, int)>, x: int)
    requires
        forall|i: int, j: int| 0 <= i < pts.len() && 0 <= j < pts.len() ==> pts[i].0 == pts[j].0,
    ensures
        slope_of(pts) is None,
        intercept_of(pts) is None,
        prediction_of(pts, x) is None,
{
    if pts.len() >= 2 {
        let a = xs(pts);
        let c = pts[0].0;
        assert forall|i: int| 0 <= i < a.len() implies #[trigger] a[i] == c by {
            assert(pts[i].0 == pts[0].0);
        }
        lemma_constant_sums(a, c);
        let n = a.len() as int;
        assert(n * (n * (c * c)) - (n * c) * (n * c) == 0) by (nonlinear_arith);
    }
}

/// A simple linear regression over a growing set of points. It keeps the
/// count, the sums, and the co-moments of the points, updated one point at a
/// time (Chan, Golub and LeVeque), scaled by the count so that they stay
/// integers.
pub struct SimpleRegression {
    n: i128,
    sum_x: i128,
    sum_y: i128,
    /// `n` times the sum of squared deviations of x from its mean.
    sxx: i128,
    /// `n` times the sum of squared deviations of y from its mean.
    syy: i128,
    /// `n` times the sum of products of the deviations.
    sxy: i128,
    points: Ghost<Seq<(int, int)>>,
}

impl SimpleRegression {
    /// The points added so far, in order.
    pub closed spec fn points(&self) -> Seq<(int, int)> {
        self.points@
    }

    pub closed spec fn wf(&self) -> bool {
        let pts = self.points@;
        &&& self.n == pts.len()
        &&& pts.len() <= MAX_COUNT
        &&& forall|i: int| 0 <= i < pts.len() ==> point_in_range(#[trigger] pts[i])
        &&& self.sum_x == sum(xs(pts))
        &&& self.sum_y == sum(ys(pts))
        &&& self.sxx == comoment(xs(pts), xs(pts))
        &&& self.syy == comoment(ys(pts), ys(pts))
        &&& self.sxy == comoment(xs(pts), ys(pts))
    }

    /// An accumulator with no points.
    pub fn new() -> (r: SimpleRegression)
        ensures
            r.wf(),
            r.points() == Seq::<(int, int)>::empty(),
    {
        let r = SimpleRegression {
            n: 0,
            sum_x: 0,
            sum_y: 0,
            sxx: 0,
            syy: 0,
            sxy: 0,
            points: Ghost(Seq::empty()),
        };
        proof {
            assert(xs(r.points@) =~= Seq::<int>::empty());
            assert(ys(r.points@) =~= Seq::<int>::empty());
        }
        r
    }

    /// Adds the point `(x, y)`. The first point sets the sums; each later one
    /// updates the co-moments by the deviation of the new point from the
    /// running means, scaled by the count.
    pub fn add_data(&mut self, x: i64, y: i64)
        requires
            old(self).wf(),
            old(self).points().len() < MAX_COUNT,
            -MAX_X <= x <= MAX_X,
            -MAX_Y <= y <= MAX_Y,
        ensures
            final(self).wf(),
            final(self).points() == old(self).points().push((x as int, y as int)),
    {
        let ghost pts = self.points@;
        let ghost p = (x as int, y as int);
        let ghost np = pts.push(p);
        proof {
            lemma_push_parts(pts, p);
            lemma_sum_push(xs(pts), x as int);
            lemma_sum_push(ys(pts), y as int);
            lemma_totals_bound(pts);
            assert forall|i: int| 0 <= i < np.len() implies point_in_range(#[trigger] np[i]) by {
                if i < pts.len() {
                    assert(np[i] == pts[i]);
                }
            }
            lemma_totals_bound(np);
        }
        let xi = x as i128;
        let yi = y as i128;
        if self.n == 0 {
            proof {
                lemma_single_point(pts, p);
            }
            self.sxx = 0;
            self.syy = 0;
            self.sxy = 0;
        } else {
            let n = self.n;
            proof {
                lemma_abs_mul_bound(n as int, x as int, MAX_COUNT as int, MAX_X as int);
                lemma_abs_mul_bound(n as int, y as int, MAX_COUNT as int, MAX_Y as int);
            }
            let ex = n * xi - self.sum_x;
            let ey = n * yi - self.sum_y;
            proof {
                let bx = 2 * MAX_COUNT * MAX_X;
                let by = 2 * MAX_COUNT * MAX_Y;
                lemma_abs_mul_bound(ex as int, ex as int, bx, bx);
                lemma_abs_mul_bound(ex as int, ey as int, bx, by);
                lemma_abs_mul_bound(ey as int, ey as int, by, by);
                lemma_abs_mul_bound(
                    (n + 1) as int,
                    self.sxx as int,
                    MAX_COUNT as int,
                    comoment_bound(MAX_X as int, MAX_X as int),
                );
                lemma_abs_mul_bound(
                    (n + 1) as int,
                    self.sxy as int,
                    MAX_COUNT as int,
                    comoment_bound(MAX_X as int, MAX_Y as int),
                );
                lemma_abs_mul_bound(
                    (n + 1) as int,
                    self.syy as int,
                    MAX_COUNT as int,
                    comoment_bound(MAX_Y as int, MAX_Y as int),
                );
                lemma_comoment_push(xs(pts), xs(pts), x as int, x as int);
                lemma_comoment_push(xs(pts), ys(pts), x as int, y as int);
                lemma_comoment_push(ys(pts), ys(pts), y as int, y as int);
            }
            self.sxx = div_exact((n + 1) * self.sxx + ex * ex, n, Ghost(comoment(xs(np), xs(np))));
            self.sxy = div_exact((n + 1) * self.sxy + ex * ey, n, Ghost(comoment(xs(np), ys(np))));
            self.syy = div_exact((n + 1) * self.syy + ey * ey, n, Ghost(comoment(ys(np), ys(np))));
        }
        self.sum_x = self.sum_x + xi;
        self.sum_y = self.sum_y + yi;
        self.n = self.n + 1;
        self.points = Ghost(np);
    }

    /// The slope of the fitted line, `Sxy / Sxx`; `None` with fewer than two
    /// points or when all points share one x value.
    pub fn slope(&self) -> (r: Option<Ratio>)
        requires
            self.wf(),
        ensures
            pair_of(r) == slope_of(self.points()),
            r matches Some(q) ==> q.den > 0,
    {
        proof {
            lemma_totals_bound(self.points@);
        }
        if self.n < 2 || self.sxx == 0 {
            None
        } else {
            Some(Ratio { num: self.sxy, den: self.sxx })
        }
    }

    /// The intercept of the fitted line, `(Sy - slope Sx) / n`; `None` where
    /// the slope is.
    pub fn intercept(&self) -> (r: Option<Ratio>)
        requires
            self.wf(),
        ensures
            pair_of(r) == intercept_of(self.points()),
            r matches Some(q) ==> q.den > 0,
    {
        proof {
            let pts = self.points@;
            lemma_totals_bound(pts);
            lemma_abs_mul_bound(
                self.sum_y as int,
                self.sxx as int,
                MAX_COUNT * MAX_Y,
                comoment_bound(MAX_X as int, MAX_X as int),
            );
            lemma_abs_mul_bound(
                self.sxy as int,
                self.sum_x as int,
                comoment_bound(MAX_X as int, MAX_Y as int),
                MAX_COUNT * MAX_X,
            );
            lemma_abs_mul_bound(
                self.n as int,
                self.sxx as int,
                MAX_COUNT as int,
                comoment_bound(MAX_X as int, MAX_X as int),
            );
            lemma_sum_bound_count(pts);
        }
        if self.n < 2 || self.sxx == 0 {
            None
        } else {
            proof {
                assert(self.n * self.sxx > 0) by (nonlinear_arith)
                    requires
                        self.n >= 2,
                        self.sxx > 0,
                ;
            }
            Some(Ratio { num: self.sum_y * self.sxx - self.sxy * self.sum_x, den: self.n * self.sxx })
        }
    }

    /// The value of the fitted line at `x`: `intercept + slope * x`; `None`
    /// where the slope is.
    pub fn predict(&self, x: i64) -> (r: Option<Ratio>)
        requires
            self.wf(),
            -MAX_X <= x <= MAX_X,
        ensures
            pair_of(r) == prediction_of(self.points(), x as int),
            r matches Some(q) ==> q.den > 0,
    {
        proof {
            let pts = self.points@;
            lemma_totals_bound(pts);
            lemma_sum_bound_count(pts);
            lemma_abs_mul_bound(self.n as int, x as int, MAX_COUNT as int, MAX_X as int);
            lemma_abs_mul_bound(
                self.sum_y as int,
                self.sxx as int,
                MAX_COUNT * MAX_Y,
                comoment_bound(MAX_X as int, MAX_X as int),
            );
            lemma_abs_mul_bound(
                self.n as int,
                self.sxx as int,
                MAX_COUNT as int,
                comoment_bound(MAX_X as int, MAX_X as int),
            );
        }
        if self.n < 2 || self.sxx == 0 {
            None
        } else {
            let xi = x as i128;
            let dev = self.n * xi - self.sum_x;
            proof {
                lemma_abs_mul_bound(
                    self.sxy as int,
                    dev as int,
                    comoment_bound(MAX_X as int, MAX_Y as int),
                    2 * MAX_COUNT * MAX_X,
                );
                assert(self.n * self.sxx > 0) by (nonlinear_arith)
                    requires
                        self.n >= 2,
                        self.sxx > 0,
                ;
            }
            Some(Ratio { num: self.sum_y * self.sxx + self.sxy * dev, den: self.n * self.sxx })
        }
    }

    /// The number of points added so far.
    pub fn count(&self) -> (r: i64)
        requires
            self.wf(),
        ensures
            r == self.points().len(),
    {
        self.n as i64
    }
}

} // verus!
