//! Terms: the one shape every climate value takes.
//!
//! A value is a sum of labelled terms. A term is a scale times a product of
//! inputs, and each input can go through a piecewise-linear curve. Terms
//! evaluate in integer fixed point: no floats and no transcendental maths,
//! so lockstep holds on every platform.
use vstd::prelude::*;
use vstd::set_lib::*;

verus! {

/// Fixed-point scale for term evaluation: 1.0 is `Q`.
pub const Q: i64 = 10_000;

/// Most points a curve may have.
pub const MAX_POINTS: usize = 16;

/// Rust's `/` on signed integers: the quotient rounded toward zero.
pub open spec fn tdiv(a: int, b: int) -> int {
    if a >= 0 {
        a / b
    } else {
        -((-a) / b)
    }
}

/// A value fits in an `i64`.
pub open spec fn fits_i64(v: int) -> bool {
    i64::MIN <= v <= i64::MAX
}

// ---------------------------------------------------------------- curves

/// A curve's points: at least one, at most `MAX_POINTS`, x strictly rising.
pub open spec fn curve_wf(xs: Seq<i64>, ys: Seq<i64>) -> bool {
    &&& 1 <= xs.len() <= MAX_POINTS
    &&& ys.len() == xs.len()
    &&& forall|i: int, j: int| 0 <= i < j < xs.len() ==> xs[i] < xs[j]
}

/// The first segment end at or past `x`, searching from `i`.
pub open spec fn segment_from(xs: Seq<i64>, x: int, i: int) -> int
    decreases xs.len() - i,
{
    if i >= xs.len() - 1 || x <= xs[i] {
        i
    } else {
        segment_from(xs, x, i + 1)
    }
}

/// Linear interpolation on the segment that ends at point `i`, rounding
/// toward zero.
pub open spec fn interp(xs: Seq<i64>, ys: Seq<i64>, x: int, i: int) -> int {
    ys[i - 1] + tdiv((ys[i] - ys[i - 1]) * (x - xs[i - 1]), xs[i] - xs[i - 1])
}

/// Every step of the interpolation on segment `i` fits in an `i64`.
pub open spec fn interp_fits(xs: Seq<i64>, ys: Seq<i64>, x: int, i: int) -> bool {
    &&& fits_i64(ys[i] - ys[i - 1])
    &&& fits_i64(x - xs[i - 1])
    &&& fits_i64(xs[i] - xs[i - 1])
    &&& fits_i64((ys[i] - ys[i - 1]) * (x - xs[i - 1]))
    &&& fits_i64(interp(xs, ys, x, i))
}

/// Piecewise-linear through the points, clamped at both ends.
pub open spec fn curve_eval_spec(c: (Seq<i64>, Seq<i64>), x: int) -> int {
    let (xs, ys) = c;
    let n = xs.len() as int;
    if x <= xs[0] {
        ys[0] as int
    } else if x >= xs[n - 1] {
        ys[n - 1] as int
    } else {
        interp(xs, ys, x, segment_from(xs, x, 1))
    }
}

/// Evaluating at `x` stays within `i64`.
pub open spec fn curve_eval_fits(c: (Seq<i64>, Seq<i64>), x: int) -> bool {
    let (xs, ys) = c;
    let n = xs.len() as int;
    x <= xs[0] || x >= xs[n - 1] || interp_fits(xs, ys, x, segment_from(xs, x, 1))
}

#[derive(Debug)]
pub struct Curve {
    xs: Vec<i64>,
    ys: Vec<i64>,
}

impl View for Curve {
    type V = (Seq<i64>, Seq<i64>);

    /// The x and y values of the points, in `Q` units.
    closed spec fn view(&self) -> (Seq<i64>, Seq<i64>) {
        (self.xs@, self.ys@)
    }
}

proof fn lemma_segment(xs: Seq<i64>, x: int, i: int)
    requires
        1 <= i <= xs.len() - 1,
        xs[i - 1] < x < xs[xs.len() - 1],
        forall|a: int, b: int| 0 <= a < b < xs.len() ==> xs[a] < xs[b],
    ensures
        1 <= segment_from(xs, x, i) <= xs.len() - 1,
        xs[segment_from(xs, x, i) - 1] < x <= xs[segment_from(xs, x, i)],
    decreases xs.len() - i,
{
    if !(i >= xs.len() - 1 || x <= xs[i]) {
        lemma_segment(xs, x, i + 1);
    }
}

impl Clone for Curve {
    fn clone(&self) -> (r: Self)
        ensures
            r@ == self@,
    {
        proof {
            use_type_invariant(self);
        }
        Curve { xs: self.xs.clone(), ys: self.ys.clone() }
    }
}

impl Curve {
    #[verifier::type_invariant]
    spec fn inv(self) -> bool {
        curve_wf(self.xs@, self.ys@)
    }

    /// Build a curve from points already in `Q` units, checked.
    pub fn compile(points: &[[i64; 2]]) -> (r: Result<Curve, String>)
        ensures
            r is Ok <==> 1 <= points@.len() <= MAX_POINTS && forall|i: int|
                0 <= i < points@.len() - 1 ==> #[trigger] points@[i][0] < points@[i + 1][0],
            r matches Ok(c) ==> c@.0 == points@.map_values(|p: [i64; 2]| p[0]) && c@.1
                == points@.map_values(|p: [i64; 2]| p[1]),
            r matches Err(e) ==> (points@.len() == 0 && e@ == "empty curve"@) || (points@.len()
                > MAX_POINTS && e@ == "curve has "@ + crate::text::decimal_spec(
                points@.len() as nat,
            ) + " points (at most 16)"@) || (1 <= points@.len() <= MAX_POINTS
                && e@ == "curve x values must increase"@),
    {
        if points.len() == 0 {
            return Err(String::from_str("empty curve"));
        }
        if points.len() > MAX_POINTS {
            let mut e = String::from_str("curve has ");
            let n = crate::text::decimal(points.len() as u64);
            e.append(n.as_str());
            e.append(" points (at most 16)");
            return Err(e);
        }
        let mut xs: Vec<i64> = Vec::new();
        let mut ys: Vec<i64> = Vec::new();
        let mut i: usize = 0;
        while i < points.len()
            invariant
                i <= points@.len(),
                1 <= points@.len() <= MAX_POINTS,
                xs@ == points@.take(i as int).map_values(|p: [i64; 2]| p[0]),
                ys@ == points@.take(i as int).map_values(|p: [i64; 2]| p[1]),
                forall|a: int, b: int| 0 <= a < b < i ==> xs@[a] < xs@[b],
                forall|k: int| 0 <= k < i - 1 ==> #[trigger] points@[k][0] < points@[k + 1][0],
            decreases points@.len() - i,
        {
            let p = points[i];
            if i > 0 && p[0] <= xs[i - 1] {
                assert(points@[i - 1][0] == xs@[i - 1]);
                return Err(String::from_str("curve x values must increase"));
            }
            proof {
                assert(points@.take(i + 1).map_values(|p: [i64; 2]| p[0]) =~= xs@.push(p[0]));
                assert(points@.take(i + 1).map_values(|p: [i64; 2]| p[1]) =~= ys@.push(p[1]));
                if i > 0 {
                    assert(points@[i - 1][0] == xs@[i - 1]);
                }
            }
            xs.push(p[0]);
            ys.push(p[1]);
            i += 1;
        }
        assert(points@.take(i as int) =~= points@);
        assert(xs@.len() == points@.len() && ys@.len() == points@.len());
        Ok(Curve { xs, ys })
    }

    /// Piecewise-linear, clamped at both ends. Integer maths only.
    pub fn eval(&self, x: i64) -> (r: i64)
        requires
            curve_eval_fits(self@, x as int),
        ensures
            r == curve_eval_spec(self@, x as int),
            forall|i: int|
                1 <= i < self@.0.len() && self@.0[i - 1] < x <= #[trigger] self@.0[i] && x
                    < self@.0[self@.0.len() - 1] ==> r == interp(
                    self@.0,
                    self@.1,
                    x as int,
                    i,
                ),
    {
        proof {
            use_type_invariant(self);
        }
        let n = self.xs.len();
        if x <= self.xs[0] {
            return self.ys[0];
        }
        if x >= self.xs[n - 1] {
            return self.ys[n - 1];
        }
        let mut i: usize = 1;
        while self.xs[i] < x
            invariant
                1 <= i <= n - 1,
                n == self.xs@.len(),
                curve_wf(self.xs@, self.ys@),
                self.xs@[i - 1] < x < self.xs@[n - 1],
                segment_from(self.xs@, x as int, i as int) == segment_from(self.xs@, x as int, 1),
            decreases n - i,
        {
            i += 1;
        }
        proof {
            lemma_segment(self.xs@, x as int, 1);
            assert forall|j: int|
                1 <= j < self@.0.len() && self@.0[j - 1] < x <= #[trigger] self@.0[j] implies j == i by {
                if j < i {
                    assert(self.xs@[j] <= self.xs@[i - 1]);
                } else if j > i {
                    assert(self.xs@[i as int] <= self.xs@[j - 1]);
                }
            }
        }
        let (x0, x1, y0, y1) = (self.xs[i - 1], self.xs[i], self.ys[i - 1], self.ys[i]);
        y0 + (y1 - y0) * (x - x0) / (x1 - x0)
    }
}

// ---------------------------------------------------------------- noise

/// The value noise takes at knot `k`, in `-Q..=Q`.
pub open spec fn knot_spec(seed: u64, k: u64) -> int {
    (crate::rng::mix_spec(seed ^ crate::rng::mix_spec(k)) % (2 * Q + 1) as u64) as int - Q
}

/// How far `tick` is between its two knots, in `0..Q`.
pub open spec fn noise_frac(tick: u64, period: u64) -> int {
    ((tick % period) as int * Q) / period as int
}

/// Smoothstep of a fraction `f` in `0..Q`: f²(3 - 2f), in `Q` units.
pub open spec fn smoothstep(f: int) -> int {
    (f * f / (Q as int)) * (3 * Q - 2 * f) / (Q as int)
}

/// Smooth value noise over ticks.
pub open spec fn noise_spec(seed: u64, tick: u64, period: u64) -> int {
    let k = tick / period;
    let a = knot_spec(seed, k);
    let b = knot_spec(seed, (k + 1) as u64);
    a + tdiv((b - a) * smoothstep(noise_frac(tick, period)), Q as int)
}

/// What `noise` needs to stay within machine integers.
pub open spec fn noise_ok(tick: u64, period: u64) -> bool {
    &&& period > 0
    &&& period <= i64::MAX
    &&& tick / period < u64::MAX
    &&& (tick % period) as int * Q <= i64::MAX
}

fn knot(seed: u64, k: u64) -> (r: i64)
    ensures
        r == knot_spec(seed, k),
        -Q <= r <= Q,
{
    let m = crate::rng::mix(seed ^ crate::rng::mix(k)) % ((2 * Q + 1) as u64);
    m as i64 - Q
}

proof fn lemma_smoothstep_bounds(f: int)
    requires
        0 <= f < Q,
    ensures
        0 <= smoothstep(f) <= Q,
        0 <= f * f < Q * Q,
        0 <= f * f / (Q as int) <= f,
{
    assert(0 <= f * f < Q * Q) by (nonlinear_arith)
        requires
            0 <= f < Q,
    ;
    let a = f * f / (Q as int);
    assert(0 <= a <= f) by (nonlinear_arith)
        requires
            0 <= f < Q,
            a == f * f / (Q as int),
    ;
    let b = 3 * Q - 2 * f;
    assert(a * b <= Q * Q) by (nonlinear_arith)
        requires
            0 <= f < Q,
            0 <= a <= f,
            b == 3 * Q - 2 * f,
            a * Q <= f * f,
    ;
    assert(0 <= a * b) by (nonlinear_arith)
        requires
            0 <= a,
            0 < b,
    ;
}

/// Smooth value noise over ticks, in -Q..Q. Stateless: the same seed and
/// tick always give the same value, and nothing is drawn from the world RNG.
#[verifier::rlimit(60)]
pub fn noise(seed: u64, tick: u64, period: u64) -> (r: i64)
    requires
        noise_ok(tick, period),
    ensures
        r == noise_spec(seed, tick, period),
        -Q <= r <= Q,
{
    let k = tick / period;
    let f = ((tick % period) as i64 * Q) / period as i64;
    assert(0 <= f < Q) by (nonlinear_arith)
        requires
            f == ((tick % period) as int * Q) / period as int,
            0 <= tick % period < period,
    ;
    let a = knot(seed, k);
    let b = knot(seed, k + 1);
    proof {
        lemma_smoothstep_bounds(f as int);
    }
    let s1 = f * f / Q;
    assert(0 <= s1 * (3 * Q - 2 * f) <= Q * Q) by (nonlinear_arith)
        requires
            0 <= f < Q,
            s1 == f * f / (Q as int),
            0 <= s1 <= f,
    {
        assert(s1 * Q <= f * f) by (nonlinear_arith)
            requires
                s1 == f * f / (Q as int),
        ;
    }
    let s = s1 * (3 * Q - 2 * f) / Q;
    assert(-2 * Q <= b - a <= 2 * Q);
    assert(-2 * Q * Q <= (b - a) * s <= 2 * Q * Q) by (nonlinear_arith)
        requires
            -2 * Q <= b - a <= 2 * Q,
            0 <= s <= Q,
    ;
    let d = (b - a) * s / Q;
    assert(tdiv(((b - a) * s) as int, Q as int) == d as int);
    assert(b >= a ==> 0 <= d <= b - a) by (nonlinear_arith)
        requires
            0 <= s <= Q,
            d == tdiv(((b - a) * s) as int, Q as int),
    ;
    assert(b < a ==> b - a <= d <= 0) by (nonlinear_arith)
        requires
            0 <= s <= Q,
            d == tdiv(((b - a) * s) as int, Q as int),
    ;
    a + d
}


// ---------------------------------------------------------------- compiled terms

/// Where an input's value comes from.
#[derive(Clone, Debug, PartialEq, Eq, Structural)]
pub enum Src {
    /// Fraction of the year, `0..Q`.
    Year,
    /// Hour of the day, `0..24·Q`.
    Hour,
    /// Another field's outdoor value.
    Ambient(usize),
    /// Smooth noise keyed so different uses don't move together.
    Noise { key: u64, period: u64 },
    /// A constant, in `Q` units.
    Const(i64),
}

/// What terms can read. Values in `Q` units.
///
/// The spec functions name what the readings are; an implementation that
/// verifies its readings defines them, and one that doesn't leaves them
/// unknown.
pub trait Env {
    open spec fn year_spec(&self) -> i64 {
        vstd::pervasive::arbitrary()
    }

    open spec fn hour_spec(&self) -> i64 {
        vstd::pervasive::arbitrary()
    }

    /// Whether `field` is one this environment can report.
    open spec fn has_field(&self, field: int) -> bool {
        vstd::pervasive::arbitrary()
    }

    open spec fn ambient_spec(&self, field: int) -> i64 {
        vstd::pervasive::arbitrary()
    }

    open spec fn tick_spec(&self) -> u64 {
        vstd::pervasive::arbitrary()
    }

    open spec fn seed_spec(&self) -> u64 {
        vstd::pervasive::arbitrary()
    }

    /// Fraction of the year, 0..Q.
    fn year(&self) -> (r: i64)
        ensures
            r == self.year_spec(),
    ;

    /// Hour of the day, 0..24·Q.
    fn hour(&self) -> (r: i64)
        ensures
            r == self.hour_spec(),
    ;

    fn ambient(&self, field: usize) -> (r: i64)
        requires
            self.has_field(field as int),
        ensures
            r == self.ambient_spec(field as int),
    ;

    fn tick(&self) -> (r: u64)
        ensures
            r == self.tick_spec(),
    ;

    fn seed(&self) -> (r: u64)
        ensures
            r == self.seed_spec(),
    ;
}

/// An input as the contracts see it: its source and its curve's points.
pub type InputView = (Src, Option<(Seq<i64>, Seq<i64>)>);

/// A term as the contracts see it: label, scale, inputs.
pub type TermView = (Seq<char>, i64, Seq<InputView>);

/// A source's raw value.
pub open spec fn src_value<E: Env>(src: Src, env: &E) -> int {
    match src {
        Src::Year => env.year_spec() as int,
        Src::Hour => env.hour_spec() as int,
        Src::Ambient(f) => env.ambient_spec(f as int) as int,
        Src::Noise { key, period } => noise_spec(env.seed_spec() ^ key, env.tick_spec(), period),
        Src::Const(c) => c as int,
    }
}

/// A source can be read in this environment.
pub open spec fn src_ok<E: Env>(src: Src, env: &E) -> bool {
    match src {
        Src::Ambient(f) => env.has_field(f as int),
        Src::Noise { key, period } => noise_ok(env.tick_spec(), period),
        _ => true,
    }
}

/// An input's value: its source through its curve, if it has one.
pub open spec fn input_value<E: Env>(i: InputView, env: &E) -> int {
    match i.1 {
        None => src_value(i.0, env),
        Some(c) => curve_eval_spec(c, src_value(i.0, env)),
    }
}

/// An input can be read, and its curve evaluated, within machine integers.
pub open spec fn input_ok<E: Env>(i: InputView, env: &E) -> bool {
    &&& src_ok(i.0, env)
    &&& (i.1 matches Some(c) ==> curve_eval_fits(c, src_value(i.0, env)))
}

/// A scale times a product of values, each product rescaled by `Q` and
/// rounded toward zero, left to right.
pub open spec fn product_spec(scale: int, vals: Seq<int>) -> int
    decreases vals.len(),
{
    if vals.len() == 0 {
        scale
    } else {
        tdiv(product_spec(scale, vals.drop_last()) * vals.last(), Q as int)
    }
}

/// The values of a term's inputs.
pub open spec fn input_values<E: Env>(inputs: Seq<InputView>, env: &E) -> Seq<int> {
    inputs.map_values(|i: InputView| input_value(i, env))
}

/// A term's value: its scale times its inputs.
pub open spec fn term_value<E: Env>(t: TermView, env: &E) -> int {
    product_spec(t.1 as int, input_values(t.2, env))
}

/// Every input of a term can be read and every product fits in an `i64`.
pub open spec fn term_ok<E: Env>(t: TermView, env: &E) -> bool {
    forall|k: int|
        0 <= k < t.2.len() ==> input_ok(#[trigger] t.2[k], env) && fits_i64(
            product_spec(t.1 as int, input_values(t.2, env).take(k)) * input_value(t.2[k], env),
        )
}

/// The sum of a list of values.
pub open spec fn sum_spec(v: Seq<int>) -> int
    decreases v.len(),
{
    if v.len() == 0 {
        0
    } else {
        sum_spec(v.drop_last()) + v.last()
    }
}

/// The values of a list of terms.
pub open spec fn term_values<E: Env>(ts: Seq<TermView>, env: &E) -> Seq<int> {
    ts.map_values(|t: TermView| term_value(t, env))
}

/// The numbers of an explanation, in order.
pub open spec fn explained_values(parts: Seq<(String, i64)>) -> Seq<int> {
    parts.map_values(|p: (String, i64)| p.1 as int)
}

/// An explanation adds up to the value: the contributions `explain` lists
/// for each term sum to what `eval` gives for the same terms and world.
pub proof fn law_explain_sums_to_eval<E: Env>(ts: Seq<TermView>, env: &E, parts: Seq<(String, i64)>)
    requires
        parts.len() == ts.len(),
        forall|k: int| 0 <= k < ts.len() ==> (#[trigger] parts[k]).0@ == ts[k].0 && parts[k].1 == term_value(ts[k], env),
    ensures
        sum_spec(explained_values(parts)) == sum_spec(term_values(ts, env)),
{
    assert(explained_values(parts) =~= term_values(ts, env)) by {
        assert forall|k: int| 0 <= k < ts.len() implies explained_values(parts)[k] == term_values(ts, env)[k] by {
            assert(parts[k].1 == term_value(ts[k], env));
        }
    }
}

/// An empty term list is worth 0 and explains itself with nothing.
pub proof fn law_empty_terms_are_zero<E: Env>(ts: Seq<TermView>, env: &E)
    requires
        ts.len() == 0,
    ensures
        sum_spec(term_values(ts, env)) == 0,
        term_values(ts, env).len() == 0,
{
}

/// Rust's division rounding toward zero of `d * t` by `w`, for `t` within
/// `0..=w`, lies between 0 and `d`.
proof fn lemma_tdiv_between(d: int, t: int, w: int)
    requires
        0 <= t <= w,
        w > 0,
    ensures
        d >= 0 ==> 0 <= tdiv(d * t, w) <= d,
        d < 0 ==> d <= tdiv(d * t, w) <= 0,
        t == w ==> tdiv(d * t, w) == d,
{
    if d >= 0 {
        assert(0 <= d * t <= d * w) by (nonlinear_arith)
            requires
                d >= 0,
                0 <= t <= w,
        ;
        vstd::arithmetic::div_mod::lemma_div_is_ordered(d * t, d * w, w);
        vstd::arithmetic::div_mod::lemma_div_multiples_vanish(d, w);
        assert(d * w == w * d) by (nonlinear_arith);
        vstd::arithmetic::div_mod::lemma_div_pos_is_pos(d * t, w);
    } else {
        assert(0 <= (-d) * t <= (-d) * w && d * t == -((-d) * t)) by (nonlinear_arith)
            requires
                d < 0,
                0 <= t <= w,
        ;
        vstd::arithmetic::div_mod::lemma_div_is_ordered((-d) * t, (-d) * w, w);
        vstd::arithmetic::div_mod::lemma_div_multiples_vanish(-d, w);
        assert((-d) * w == w * (-d)) by (nonlinear_arith);
        vstd::arithmetic::div_mod::lemma_div_pos_is_pos((-d) * t, w);
        if d * t == 0 {
            assert(t == 0) by (nonlinear_arith)
                requires
                    d < 0,
                    d * t == 0,
            ;
        }
    }
}

/// A curve's value lies between the least and the greatest of its
/// points' values, and at each point's x it is that point's value.
pub proof fn law_curve_between_points(xs: Seq<i64>, ys: Seq<i64>, x: int)
    requires
        curve_wf(xs, ys),
    ensures
        exists|j: int| 0 <= j < ys.len() && ys[j] <= curve_eval_spec((xs, ys), x),
        exists|l: int| 0 <= l < ys.len() && curve_eval_spec((xs, ys), x) <= ys[l],
        forall|k: int| 0 <= k < xs.len() ==> curve_eval_spec((xs, ys), #[trigger] xs[k] as int) == ys[k],
{
    let n = xs.len() as int;
    let v = curve_eval_spec((xs, ys), x);
    if x <= xs[0] {
        assert(ys[0] <= v <= ys[0]);
    } else if x >= xs[n - 1] {
        assert(ys[n - 1] <= v <= ys[n - 1]);
    } else {
        lemma_segment(xs, x, 1);
        let i = segment_from(xs, x, 1);
        lemma_tdiv_between(ys[i] - ys[i - 1], x - xs[i - 1], xs[i] - xs[i - 1]);
        if ys[i] >= ys[i - 1] {
            assert(ys[i - 1] <= v <= ys[i]);
        } else {
            assert(ys[i] <= v <= ys[i - 1]);
        }
    }
    assert forall|k: int| 0 <= k < xs.len() implies curve_eval_spec((xs, ys), #[trigger] xs[k] as int) == ys[k] by {
        let xk = xs[k] as int;
        if k == 0 {
        } else if k == n - 1 {
            assert(xk > xs[0]);
        } else {
            assert(xs[0] < xk < xs[n - 1]);
            lemma_segment(xs, xk, 1);
            let i = segment_from(xs, xk, 1);
            assert(i == k) by {
                if i < k {
                    assert(xs[i] < xs[k]);
                } else if i > k {
                    assert(xs[k] <= xs[i - 1]);
                }
            }
            lemma_tdiv_between(ys[k] - ys[k - 1], xk - xs[k - 1], xs[k] - xs[k - 1]);
        }
    }
}

/// Every term is fine and every running total fits in an `i64`.
pub open spec fn terms_ok<E: Env>(ts: Seq<TermView>, env: &E) -> bool {
    &&& forall|k: int| 0 <= k < ts.len() ==> term_ok(#[trigger] ts[k], env)
    &&& forall|k: int| 0 <= k <= ts.len() ==> fits_i64(#[trigger] sum_spec(term_values(ts, env).take(k)))
}

#[derive(Clone, Debug)]
pub struct Input {
    src: Src,
    curve: Option<Curve>,
}

impl View for Input {
    type V = InputView;

    closed spec fn view(&self) -> InputView {
        (
            self.src,
            match self.curve {
                None => None,
                Some(c) => Some(c@),
            },
        )
    }
}

#[derive(Clone, Debug)]
pub struct Term {
    pub label: String,
    scale: i64,
    inputs: Vec<Input>,
}

impl View for Term {
    type V = TermView;

    closed spec fn view(&self) -> TermView {
        (self.label@, self.scale, self.inputs@.map_values(|i: Input| i@))
    }
}

/// A compiled term list.
#[derive(Clone, Debug)]
pub struct Terms {
    pub terms: Vec<Term>,
}

impl Default for Terms {
    /// No terms: worth 0 everywhere.
    fn default() -> (r: Self)
        ensures
            r@.len() == 0,
    {
        Terms { terms: Vec::new() }
    }
}

impl View for Terms {
    type V = Seq<TermView>;

    open spec fn view(&self) -> Seq<TermView> {
        self.terms@.map_values(|t: Term| t@)
    }
}

fn input_value_exec<E: Env>(i: &Input, env: &E) -> (r: i64)
    requires
        input_ok(i@, env),
    ensures
        r == input_value(i@, env),
{
    let v = match i.src {
        Src::Year => env.year(),
        Src::Hour => env.hour(),
        Src::Ambient(f) => env.ambient(f),
        Src::Noise { key, period } => noise(env.seed() ^ key, env.tick(), period),
        Src::Const(c) => c,
    };
    match &i.curve {
        Some(c) => c.eval(v),
        None => v,
    }
}

impl Terms {
    pub fn is_empty(&self) -> (r: bool)
        ensures
            r == (self@.len() == 0),
    {
        self.terms.len() == 0
    }

    fn term<E: Env>(t: &Term, env: &E) -> (r: i64)
        requires
            term_ok(t@, env),
        ensures
            r == term_value(t@, env),
    {
        let ghost tv = t@;
        let ghost vals = input_values(tv.2, env);
        let mut acc = t.scale;
        let mut k: usize = 0;
        while k < t.inputs.len()
            invariant
                k <= t.inputs@.len(),
                tv == t@,
                vals == input_values(tv.2, env),
                term_ok(tv, env),
                acc == product_spec(tv.1 as int, vals.take(k as int)),
            decreases t.inputs@.len() - k,
        {
            assert(tv.2[k as int] == t.inputs@[k as int]@);
            let v = input_value_exec(&t.inputs[k], env);
            assert(vals.take(k + 1).drop_last() =~= vals.take(k as int));
            acc = acc * v / Q;
            k += 1;
        }
        assert(vals.take(k as int) =~= vals);
        acc
    }

    pub fn eval<E: Env>(&self, env: &E) -> (r: i64)
        requires
            terms_ok(self@, env),
        ensures
            r == sum_spec(term_values(self@, env)),
    {
        let ghost vals = term_values(self@, env);
        let mut sum: i64 = 0;
        let mut k: usize = 0;
        while k < self.terms.len()
            invariant
                k <= self.terms@.len(),
                vals == term_values(self@, env),
                terms_ok(self@, env),
                sum == sum_spec(vals.take(k as int)),
            decreases self.terms@.len() - k,
        {
            assert(self@[k as int] == self.terms@[k as int]@);
            let v = Self::term(&self.terms[k], env);
            assert(vals.take(k + 1).drop_last() =~= vals.take(k as int));
            assert(fits_i64(sum_spec(vals.take(k + 1))));
            sum = sum + v;
            k += 1;
        }
        assert(vals.take(k as int) =~= vals);
        sum
    }

    /// Each term's contribution, by label.
    pub fn explain<E: Env>(&self, env: &E) -> (r: Vec<(String, i64)>)
        requires
            forall|k: int| 0 <= k < self@.len() ==> term_ok(#[trigger] self@[k], env),
        ensures
            r@.len() == self@.len(),
            forall|k: int|
                0 <= k < self@.len() ==> (#[trigger] r@[k]).0@ == self@[k].0 && r@[k].1
                    == term_value(self@[k], env),
            sum_spec(explained_values(r@)) == sum_spec(term_values(self@, env)),
    {
        let mut out: Vec<(String, i64)> = Vec::new();
        let mut k: usize = 0;
        while k < self.terms.len()
            invariant
                k <= self.terms@.len(),
                forall|m: int| 0 <= m < self@.len() ==> term_ok(#[trigger] self@[m], env),
                out@.len() == k,
                forall|m: int|
                    0 <= m < k ==> (#[trigger] out@[m]).0@ == self@[m].0 && out@[m].1
                        == term_value(self@[m], env),
            decreases self.terms@.len() - k,
        {
            assert(self@[k as int] == self.terms@[k as int]@);
            let v = Self::term(&self.terms[k], env);
            out.push((self.terms[k].label.clone(), v));
            k += 1;
        }
        proof {
            law_explain_sums_to_eval(self@, env, out@);
        }
        out
    }

    /// Fields this list reads, for dependency ordering: each once, rising.
    pub fn reads(&self) -> (r: Vec<usize>)
        ensures
            forall|a: int, b: int| 0 <= a < b < r@.len() ==> r@[a] < r@[b],
            forall|f: usize|
                r@.contains(f) <==> exists|k: int, j: int|
                    0 <= k < self@.len() && 0 <= j < self@[k].2.len() && #[trigger] self@[k].2[j].0
                        == Src::Ambient(f),
    {
        let mut v: Vec<usize> = Vec::new();
        let mut k: usize = 0;
        while k < self.terms.len()
            invariant
                k <= self.terms@.len(),
                forall|a: int, b: int| 0 <= a < b < v@.len() ==> v@[a] < v@[b],
                forall|f: usize|
                    v@.contains(f) <==> exists|kk: int, j: int|
                        0 <= kk < k && 0 <= j < self@[kk].2.len() && #[trigger] self@[kk].2[j].0
                            == Src::Ambient(f),
            decreases self.terms@.len() - k,
        {
            let t = &self.terms[k];
            assert(self@[k as int] == t@);
            let mut j: usize = 0;
            while j < t.inputs.len()
                invariant
                    k < self.terms@.len(),
                    t == self.terms@[k as int],
                    self@[k as int] == t@,
                    j <= t.inputs@.len(),
                    forall|a: int, b: int| 0 <= a < b < v@.len() ==> v@[a] < v@[b],
                    forall|f: usize|
                        v@.contains(f) <==> (exists|kk: int, jj: int|
                            0 <= kk < k && 0 <= jj < self@[kk].2.len() && #[trigger] self@[kk].2[jj].0
                                == Src::Ambient(f)) || (exists|jj: int|
                            0 <= jj < j && #[trigger] self@[k as int].2[jj].0 == Src::Ambient(f)),
                decreases t.inputs@.len() - j,
            {
                assert(t@.2[j as int] == t.inputs@[j as int]@);
                let ghost before = v@;
                if let Src::Ambient(f0) = t.inputs[j].src {
                    insert_sorted(&mut v, f0);
                    assert(self@[k as int].2[j as int].0 == Src::Ambient(f0));
                } else {
                    assert(forall|f: usize| self@[k as int].2[j as int].0 != Src::Ambient(f));
                }
                proof {
                    assert forall|f: usize|
                        v@.contains(f) <==> (exists|kk: int, jj: int|
                            0 <= kk < k && 0 <= jj < self@[kk].2.len() && #[trigger] self@[kk].2[jj].0
                                == Src::Ambient(f)) || (exists|jj: int|
                            0 <= jj < j + 1 && #[trigger] self@[k as int].2[jj].0 == Src::Ambient(f)) by {
                        if exists|jj: int| 0 <= jj < j + 1 && #[trigger] self@[k as int].2[jj].0 == Src::Ambient(f) {
                            let jj = choose|jj: int| 0 <= jj < j + 1 && #[trigger] self@[k as int].2[jj].0
                                == Src::Ambient(f);
                            if jj < j {
                                assert(self@[k as int].2[jj].0 == Src::Ambient(f));
                            }
                        }
                    }
                }
                j += 1;
            }
            proof {
                assert forall|f: usize|
                    v@.contains(f) <==> exists|kk: int, jj: int|
                        0 <= kk < k + 1 && 0 <= jj < self@[kk].2.len() && #[trigger] self@[kk].2[jj].0
                            == Src::Ambient(f) by {
                    if exists|jj: int| 0 <= jj < j && #[trigger] self@[k as int].2[jj].0 == Src::Ambient(f) {
                        let jj = choose|jj: int| 0 <= jj < j && #[trigger] self@[k as int].2[jj].0
                            == Src::Ambient(f);
                        assert(self@[k as int].2[jj].0 == Src::Ambient(f));
                    }
                    if exists|kk: int, jj: int|
                        0 <= kk < k + 1 && 0 <= jj < self@[kk].2.len() && #[trigger] self@[kk].2[jj].0
                            == Src::Ambient(f) {
                        let (kk, jj) = choose|kk: int, jj: int|
                            0 <= kk < k + 1 && 0 <= jj < self@[kk].2.len() && #[trigger] self@[kk].2[jj].0
                                == Src::Ambient(f);
                        if kk == k {
                            assert(self@[k as int].2[jj].0 == Src::Ambient(f));
                        } else {
                            assert(self@[kk].2[jj].0 == Src::Ambient(f));
                        }
                    }
                }
            }
            k += 1;
        }
        v
    }
}

/// Puts `f` into a rising list of distinct numbers, unless it is there.
#[verifier::spinoff_prover]
#[verifier::rlimit(40)]
fn insert_sorted(v: &mut Vec<usize>, f: usize)
    requires
        forall|a: int, b: int| 0 <= a < b < old(v)@.len() ==> old(v)@[a] < old(v)@[b],
    ensures
        forall|a: int, b: int| 0 <= a < b < final(v)@.len() ==> final(v)@[a] < final(v)@[b],
        forall|x: usize| final(v)@.contains(x) <==> old(v)@.contains(x) || x == f,
{
    let mut i: usize = 0;
    while i < v.len() && v[i] < f
        invariant
            i <= v@.len(),
            v@ == old(v)@,
            forall|a: int| 0 <= a < i ==> v@[a] < f,
        decreases v@.len() - i,
    {
        i += 1;
    }
    if i < v.len() && v[i] == f {
        assert(v@[i as int] == f);
        return;
    }
    let ghost before = v@;
    assert(before == old(v)@);
    v.insert(i, f);
    proof {
        assert(v@ =~= before.take(i as int).push(f) + before.skip(i as int));
        assert forall|x: usize| v@.contains(x) <==> old(v)@.contains(x) || x == f by {
            if before.contains(x) {
                let m = choose|m: int| 0 <= m < before.len() && before[m] == x;
                if m < i {
                    assert(v@[m] == x);
                } else {
                    assert(v@[m + 1] == x);
                }
            }
            if x == f {
                assert(v@[i as int] == f);
            }
            if v@.contains(x) {
                let m = choose|m: int| 0 <= m < v@.len() && v@[m] == x;
                if m < i {
                    assert(before[m] == x);
                } else if m > i {
                    assert(before[m - 1] == x);
                }
            }
        }
        assert forall|a: int, b: int| 0 <= a < b < v@.len() implies v@[a] < v@[b] by {
            if b < i {
            } else if a < i && b == i {
            } else if a < i && b > i {
                assert(v@[b] == before[b - 1]);
                assert(before[a] < before[b - 1] || a == b - 1);
            } else if a == i {
                assert(v@[b] == before[b - 1]);
                assert(i < before.len() ==> f <= before[i as int]);
            } else {
                assert(v@[a] == before[a - 1] && v@[b] == before[b - 1]);
            }
        }
    }
}

// ---------------------------------------------------------------- compiling

/// A source as written, with its numbers already in fixed point.
pub struct SourceDef {
    /// `"year"` (0..1) or `"hour"` (0..24).
    pub input: Option<String>,
    /// Another field's outdoor value.
    pub ambient: Option<String>,
    /// Smooth noise in -1..1, keyed so different uses don't move together.
    pub noise: Option<String>,
    /// The noise period in ticks: `None` when the `hours` written are not
    /// above 0.
    pub period: Option<u64>,
    /// The curve's points, in `Q` units.
    pub curve: Vec<[i64; 2]>,
}

/// An input: a plain number (in `Q` units), or a table naming a source.
pub enum InputDef {
    Const(i64),
    Source(SourceDef),
}

/// One term as written: its scale in `Q` units and its inputs.
pub struct TermDef {
    pub scale: i64,
    pub of: Vec<InputDef>,
}

/// The hash a noise name is folded into before it keys the noise.
pub open spec fn key_fold(bytes: Seq<u8>) -> u64
    decreases bytes.len(),
{
    if bytes.len() == 0 {
        0xC11A_7E00u64
    } else {
        crate::rng::mix_spec(key_fold(bytes.drop_last()) ^ (bytes.last() as u64))
    }
}

/// The noise key a name gives.
pub open spec fn noise_key_spec(name: Seq<char>) -> u64 {
    crate::rng::mix_spec(key_fold(vstd::utf8::encode_utf8(name)))
}

fn noise_key(name: &str) -> (r: u64)
    ensures
        r == noise_key_spec(name@),
{
    let b = name.as_bytes();
    let mut h: u64 = 0xC11A_7E00u64;
    let mut i: usize = 0;
    while i < b.len()
        invariant
            i <= b@.len(),
            b@ == vstd::utf8::encode_utf8(name@),
            h == key_fold(b@.take(i as int)),
        decreases b@.len() - i,
    {
        assert(b@.take(i + 1).drop_last() =~= b@.take(i as int));
        h = crate::rng::mix(h ^ (b[i] as u64));
        i += 1;
    }
    assert(b@.take(i as int) =~= b@);
    crate::rng::mix(h)
}

/// How many of the three names a source gives.
pub open spec fn named_count(s: &SourceDef) -> int {
    (if s.input is Some { 1int } else { 0int }) + (if s.ambient is Some { 1int } else { 0int }) + (
    if s.noise is Some { 1int } else { 0int })
}

/// The curve an input goes through, or the error its points give.
pub open spec fn curve_outcome(points: Seq<[i64; 2]>, ctx: Seq<char>, r: Result<Option<(Seq<i64>, Seq<i64>)>, Seq<char>>) -> bool {
    if points.len() == 0 {
        r == Ok::<Option<(Seq<i64>, Seq<i64>)>, Seq<char>>(None)
    } else {
        match r {
            Ok(Some(c)) => c.0 == points.map_values(|p: [i64; 2]| p[0]) && c.1 == points.map_values(
                |p: [i64; 2]| p[1],
            ) && points.len() <= MAX_POINTS && forall|i: int|
                0 <= i < points.len() - 1 ==> #[trigger] points[i][0] < points[i + 1][0],
            Ok(None) => false,
            Err(e) => exists|ce: Seq<char>|
                e == ctx + ": "@ + ce && ((points.len() > MAX_POINTS && ce == "curve has "@
                    + crate::text::decimal_spec(points.len() as nat) + " points (at most 16)"@)
                    || (points.len() <= MAX_POINTS && ce == "curve x values must increase"@)),
        }
    }
}

/// A source known to be `src_res`, then its curve.
pub open spec fn then_curve(src_res: Result<Src, Seq<char>>, points: Seq<[i64; 2]>, ctx: Seq<char>, r: Result<InputView, Seq<char>>) -> bool {
    match src_res {
        Err(e) => r == Err::<InputView, Seq<char>>(e),
        Ok(src) => match r {
            Ok(iv) => iv.0 == src && curve_outcome(points, ctx, Ok(iv.1)),
            Err(e) => curve_outcome(points, ctx, Err(e)),
        },
    }
}

/// `resolve` may answer `res` for the name `a`.
pub open spec fn resolves<R: Fn(&str) -> Option<usize>>(resolve: R, a: Seq<char>, res: Option<usize>) -> bool {
    exists|sr: &str| sr@ == a && call_ensures(resolve, (sr,), res)
}

/// What a source's names may give: its source, or an error.
pub open spec fn src_outcome<R: Fn(&str) -> Option<usize>>(
    s: &SourceDef,
    ctx: Seq<char>,
    resolve: R,
    r: Result<Src, Seq<char>>,
) -> bool {
    if named_count(s) != 1 {
        r == Err::<Src, Seq<char>>(
            ctx + ": an input needs exactly one of `input`, `ambient` or `noise`"@,
        )
    } else if s.input is Some {
        let i = s.input->Some_0;
        r == if i@ == "year"@ {
            Ok(Src::Year)
        } else if i@ == "hour"@ {
            Ok(Src::Hour)
        } else {
            Err(ctx + ": unknown input '"@ + i@ + "' (have: year, hour)"@)
        }
    } else if s.ambient is Some {
        let a = s.ambient->Some_0;
        match r {
            Ok(src) => exists|f: usize| resolves(resolve, a@, Some(f)) && src == Src::Ambient(f),
            Err(e) => e == ctx + ": unknown field '"@ + a@ + "'"@ && resolves(resolve, a@, None),
        }
    } else {
        let k = s.noise->Some_0;
        r == match s.period {
            None => Err(ctx + ": noise '"@ + k@ + "' needs `hours` > 0"@),
            Some(p) => Ok(Src::Noise { key: noise_key_spec(k@), period: p }),
        }
    }
}

/// What compiling a source may give, in context `ctx`, resolving field
/// names with `resolve`: its names first, then its curve.
pub open spec fn source_outcome<R: Fn(&str) -> Option<usize>>(
    s: &SourceDef,
    ctx: Seq<char>,
    resolve: R,
    r: Result<InputView, Seq<char>>,
) -> bool {
    exists|sr: Result<Src, Seq<char>>| src_outcome(s, ctx, resolve, sr) && then_curve(sr, s.curve@, ctx, r)
}

fn compile_src<R: Fn(&str) -> Option<usize>>(s: &SourceDef, ctx: &str, resolve: &R) -> (r: Result<Src, String>)
    requires
        forall|a: &str| call_requires(*resolve, (a,)),
    ensures
        src_outcome(
            s,
            ctx@,
            *resolve,
            match r {
                Ok(x) => Ok(x),
                Err(e) => Err(e@),
            },
        ),
{
    let named = (if s.input.is_some() { 1u8 } else { 0u8 }) + (if s.ambient.is_some() { 1u8 } else { 0u8 }) + (
    if s.noise.is_some() { 1u8 } else { 0u8 });
    if named != 1 {
        return Err(ctx_with(ctx, ": an input needs exactly one of `input`, `ambient` or `noise`"));
    }
    if let Some(i) = &s.input {
        if crate::text::str_eq(i.as_str(), "year") {
            Ok(Src::Year)
        } else if crate::text::str_eq(i.as_str(), "hour") {
            Ok(Src::Hour)
        } else {
            let mut e = ctx_with(ctx, ": unknown input '");
            e.append(i.as_str());
            e.append("' (have: year, hour)");
            Err(e)
        }
    } else if let Some(a) = &s.ambient {
        let astr = a.as_str();
        let got = resolve(astr);
        assert(astr@ == a@);
        assert(resolves(*resolve, a@, got));
        match got {
            Some(f) => Ok(Src::Ambient(f)),
            None => {
                let mut e = ctx_with(ctx, ": unknown field '");
                e.append(a.as_str());
                e.append("'");
                Err(e)
            },
        }
    } else {
        let k = match &s.noise {
            Some(k) => k,
            None => {
                assert(named_count(s) == 0);
                return Err(String::new());
            },
        };
        match s.period {
            None => {
                let mut e = ctx_with(ctx, ": noise '");
                e.append(k.as_str());
                e.append("' needs `hours` > 0");
                Err(e)
            },
            Some(p) => Ok(Src::Noise { key: noise_key(k.as_str()), period: p }),
        }
    }
}

fn compile_curve(points: &Vec<[i64; 2]>, ctx: &str) -> (r: Result<Option<Curve>, String>)
    ensures
        curve_outcome(
            points@,
            ctx@,
            match r {
                Ok(None) => Ok(None),
                Ok(Some(c)) => Ok(Some(c@)),
                Err(e) => Err(e@),
            },
        ),
{
    if points.len() == 0 {
        return Ok(None);
    }
    match Curve::compile(points.as_slice()) {
        Ok(c) => Ok(Some(c)),
        Err(ce) => {
            let mut e = ctx_with(ctx, ": ");
            e.append(ce.as_str());
            assert(e@ == ctx@ + ": "@ + ce@);
            Err(e)
        },
    }
}

/// `ctx` followed by a literal.
fn ctx_with(ctx: &str, tail: &str) -> (r: String)
    ensures
        r@ == ctx@ + tail@,
{
    let mut e = String::from_str(ctx);
    e.append(tail);
    e
}

fn compile_source<R: Fn(&str) -> Option<usize>>(s: &SourceDef, ctx: &str, resolve: &R) -> (r: Result<Input, String>)
    requires
        forall|a: &str| call_requires(*resolve, (a,)),
    ensures
        source_outcome(
            s,
            ctx@,
            *resolve,
            match r {
                Ok(i) => Ok(i@),
                Err(e) => Err(e@),
            },
        ),
{
    let sr = compile_src(s, ctx, resolve);
    let ghost srv: Result<Src, Seq<char>> = match &sr {
        Ok(x) => Ok(*x),
        Err(e) => Err(e@),
    };
    let src = match sr {
        Ok(x) => x,
        Err(e) => {
            assert(then_curve(srv, s.curve@, ctx@, Err(e@)));
            return Err(e);
        },
    };
    let c = compile_curve(&s.curve, ctx);
    match c {
        Ok(curve) => {
            let r = Input { src, curve };
            assert(then_curve(srv, s.curve@, ctx@, Ok(r@)));
            Ok(r)
        },
        Err(e) => {
            assert(then_curve(srv, s.curve@, ctx@, Err(e@)));
            Err(e)
        },
    }
}

/// Terms by label, in label order, as written.
pub type TermsDef = Vec<(String, TermDef)>;

/// A term list as a mod writes it is a table: its labels come in name
/// order, each once.
pub open spec fn names_ascending(def: Seq<(String, TermDef)>) -> bool {
    forall|a: int, b: int| 0 <= a < b < def.len() ==> crate::modloader::text_lt(#[trigger] def[a].0@, #[trigger] def[b].0@)
}

/// Where an error in term `label` of def `ctx` says it is.
pub open spec fn term_ctx(ctx: Seq<char>, label: Seq<char>) -> Seq<char> {
    ctx + ", term '"@ + label + "'"@
}

/// What compiling one written input may give.
pub open spec fn input_outcome<R: Fn(&str) -> Option<usize>>(
    d: &InputDef,
    ctx: Seq<char>,
    resolve: R,
    r: Result<InputView, Seq<char>>,
) -> bool {
    match d {
        InputDef::Const(v) => r == Ok::<InputView, Seq<char>>((Src::Const(*v), None)),
        InputDef::Source(s) => source_outcome(s, ctx, resolve, r),
    }
}

/// An input may compile: some outcome of it is a compiled input.
pub open spec fn may_compile<R: Fn(&str) -> Option<usize>>(d: &InputDef, ctx: Seq<char>, resolve: R) -> bool {
    exists|iv: InputView| input_outcome(d, ctx, resolve, Ok(iv))
}

/// Every input before input `j` of term `k` (every input of the terms
/// before it, and its own first `j`) may compile: the error of input
/// `(k, j)` is the first one met.
pub open spec fn inputs_before_compile<R: Fn(&str) -> Option<usize>>(def: Seq<(String, TermDef)>, ctx: Seq<char>, resolve: R, k: int, j: int) -> bool {
    &&& forall|m: int, jj: int| 0 <= m < k && 0 <= jj < def[m].1.of@.len()
        ==> may_compile(#[trigger] &def[m].1.of@[jj], term_ctx(ctx, def[m].0@), resolve)
    &&& forall|jj: int| 0 <= jj < j ==> may_compile(#[trigger] &def[k].1.of@[jj], term_ctx(ctx, def[k].0@), resolve)
}

impl Terms {
    /// `resolve` maps a field id to its index. `ctx` names the def in errors.
    pub fn compile<R: Fn(&str) -> Option<usize>>(def: &TermsDef, ctx: &str, resolve: &R) -> (r: Result<Terms, String>)
        requires
            forall|a: &str| call_requires(*resolve, (a,)),
            names_ascending(def@),
        ensures
            r matches Ok(ts) ==> {
                &&& ts@.len() == def@.len()
                &&& forall|a: int, b: int| 0 <= a < b < ts@.len() ==> crate::modloader::text_lt(#[trigger] ts@[a].0, #[trigger] ts@[b].0)
                &&& forall|k: int|
                    #![trigger ts@[k]]
                    0 <= k < def@.len() ==> {
                        &&& ts@[k].0 == def@[k].0@
                        &&& ts@[k].1 == def@[k].1.scale
                        &&& ts@[k].2.len() == def@[k].1.of@.len()
                        &&& forall|j: int|
                            0 <= j < def@[k].1.of@.len() ==> input_outcome(
                                &def@[k].1.of@[j],
                                term_ctx(ctx@, def@[k].0@),
                                *resolve,
                                Ok(#[trigger] ts@[k].2[j]),
                            )
                    }
            },
            r matches Err(e) ==> exists|k: int, j: int|
                0 <= k < def@.len() && 0 <= j < def@[k].1.of@.len() && input_outcome(
                    #[trigger] &def@[k].1.of@[j],
                    term_ctx(ctx@, def@[k].0@),
                    *resolve,
                    Err(e@),
                ) && inputs_before_compile(def@, ctx@, *resolve, k, j),
    {
        let mut terms: Vec<Term> = Vec::new();
        let mut k: usize = 0;
        while k < def.len()
            invariant
                k <= def@.len(),
                forall|a: &str| call_requires(*resolve, (a,)),
                terms@.len() == k,
                forall|m: int|
                    #![trigger terms@[m]]
                    0 <= m < k ==> {
                        &&& terms@[m]@.0 == def@[m].0@
                        &&& terms@[m]@.1 == def@[m].1.scale
                        &&& terms@[m]@.2.len() == def@[m].1.of@.len()
                        &&& forall|j: int|
                            0 <= j < def@[m].1.of@.len() ==> input_outcome(
                                &def@[m].1.of@[j],
                                term_ctx(ctx@, def@[m].0@),
                                *resolve,
                                Ok(#[trigger] terms@[m]@.2[j]),
                            )
                    },
            decreases def@.len() - k,
        {
            let (label, t) = &def[k];
            let mut here = ctx_with(ctx, ", term '");
            here.append(label.as_str());
            here.append("'");
            assert(here@ == term_ctx(ctx@, label@));
            let mut inputs: Vec<Input> = Vec::new();
            let mut j: usize = 0;
            while j < t.of.len()
                invariant
                    j <= t.of@.len(),
                    k < def@.len(),
                    *t == def@[k as int].1,
                    *label == def@[k as int].0,
                    forall|a: &str| call_requires(*resolve, (a,)),
                    here@ == term_ctx(ctx@, label@),
                    inputs@.len() == j,
                    forall|m: int|
                        0 <= m < j ==> input_outcome(
                            &t.of@[m],
                            here@,
                            *resolve,
                            Ok(#[trigger] inputs@[m]@),
                        ),
                    terms@.len() == k,
                    forall|m: int|
                        #![trigger terms@[m]]
                        0 <= m < k ==> {
                            &&& terms@[m]@.2.len() == def@[m].1.of@.len()
                            &&& forall|jj: int|
                                0 <= jj < def@[m].1.of@.len() ==> input_outcome(
                                    &def@[m].1.of@[jj],
                                    term_ctx(ctx@, def@[m].0@),
                                    *resolve,
                                    Ok(#[trigger] terms@[m]@.2[jj]),
                                )
                        },
                decreases t.of@.len() - j,
            {
                let inp = match &t.of[j] {
                    InputDef::Const(v) => Input { src: Src::Const(*v), curve: None },
                    InputDef::Source(s) => match compile_source(s, here.as_str(), resolve) {
                        Ok(i) => i,
                        Err(e) => {
                            assert(input_outcome(&def@[k as int].1.of@[j as int], term_ctx(ctx@, def@[k as int].0@), *resolve, Err(e@)));
                            proof {
                                assert forall|m: int, jj: int| 0 <= m < k && 0 <= jj < def@[m].1.of@.len()
                                    implies may_compile(#[trigger] &def@[m].1.of@[jj], term_ctx(ctx@, def@[m].0@), *resolve) by {
                                    assert(terms@[m]@.2.len() == def@[m].1.of@.len());
                                    assert(input_outcome(&def@[m].1.of@[jj], term_ctx(ctx@, def@[m].0@), *resolve, Ok(terms@[m]@.2[jj])));
                                }
                                assert forall|jj: int| 0 <= jj < j implies may_compile(#[trigger] &def@[k as int].1.of@[jj], term_ctx(ctx@, def@[k as int].0@), *resolve) by {
                                    assert(input_outcome(&t.of@[jj], here@, *resolve, Ok(inputs@[jj]@)));
                                }
                                assert(inputs_before_compile(def@, ctx@, *resolve, k as int, j as int));
                            }
                            return Err(e);
                        },
                    },
                };
                inputs.push(inp);
                j += 1;
            }
            let ghost iv = inputs@;
            let term = Term { label: label.clone(), scale: t.scale, inputs };
            assert(term@.2 =~= iv.map_values(|i: Input| i@));
            terms.push(term);
            k += 1;
        }
        let r = Terms { terms };
        assert(r@.len() == def@.len());
        Ok(r)
    }
}

// ---------------------------------------------------------------- ordering

/// `g[a]` lists what field `a` reads.
pub open spec fn reads_view(reads: Seq<Vec<usize>>) -> Seq<Seq<usize>> {
    reads.map_values(|v: Vec<usize>| v@)
}

/// Every field a list reads is one of the fields.
pub open spec fn edges_in_range(g: Seq<Seq<usize>>) -> bool {
    forall|a: int, j: int| 0 <= a < g.len() && 0 <= j < g[a].len() ==> #[trigger] g[a][j] < g.len()
}

/// `c` walks the read relation back to where it started.
pub open spec fn is_cycle(g: Seq<Seq<usize>>, c: Seq<usize>) -> bool {
    &&& c.len() >= 2
    &&& c[0] == c.last()
    &&& forall|k: int| 0 <= k < c.len() ==> #[trigger] c[k] < g.len()
    &&& forall|k: int| 0 <= k < c.len() - 1 ==> g[c[k] as int].contains(#[trigger] c[k + 1])
}

/// Some fields read each other round in a circle.
pub open spec fn has_cycle(g: Seq<Seq<usize>>) -> bool {
    exists|c: Seq<usize>| is_cycle(g, c)
}

/// Each of `out[..k]` is a field, none twice.
pub open spec fn fields_once(g: Seq<Seq<usize>>, out: Seq<usize>) -> bool {
    &&& out.no_duplicates()
    &&& forall|k: int| 0 <= k < out.len() ==> #[trigger] out[k] < g.len()
}

/// Everything a listed field reads is listed before it.
pub open spec fn reads_come_first(g: Seq<Seq<usize>>, out: Seq<usize>) -> bool {
    forall|k: int, j: int|
        0 <= k < out.len() && 0 <= j < g[out[k] as int].len() ==> out.take(k).contains(
            #[trigger] g[out[k] as int][j],
        )
}

/// Every field once, each after the fields it reads.
pub open spec fn is_eval_order(g: Seq<Seq<usize>>, out: Seq<usize>) -> bool {
    &&& out.len() == g.len()
    &&& fields_once(g, out)
    &&& forall|i: usize| i < g.len() ==> #[trigger] out.contains(i)
    &&& reads_come_first(g, out)
}

/// Names joined by a separator.
pub open spec fn join_spec(parts: Seq<Seq<char>>, sep: Seq<char>) -> Seq<char>
    decreases parts.len(),
{
    if parts.len() == 0 {
        Seq::empty()
    } else if parts.len() == 1 {
        parts[0]
    } else {
        join_spec(parts.drop_last(), sep) + sep + parts.last()
    }
}

/// The fields of a cycle by name.
pub open spec fn cycle_names(names: Seq<&str>, c: Seq<usize>) -> Seq<Seq<char>> {
    c.map_values(|p: usize| names[p as int]@)
}

/// The error that names a cycle of field reads.
pub open spec fn cycle_message(names: Seq<&str>, c: Seq<usize>) -> Seq<char> {
    "field ambient terms form a cycle: "@ + join_spec(cycle_names(names, c), " -> "@)
}

/// The bookkeeping of the depth-first walk: `state` is 0 for fields not
/// reached, 1 for those on the current path, 2 for those finished, and the
/// finished ones are listed in `out` in an order that respects reads.
pub open spec fn walk_inv(g: Seq<Seq<usize>>, state: Seq<u8>, out: Seq<usize>, path: Seq<usize>) -> bool {
    &&& state.len() == g.len()
    &&& edges_in_range(g)
    &&& forall|j: int| 0 <= j < state.len() ==> #[trigger] state[j] <= 2
    &&& forall|j: int| 0 <= j < state.len() ==> (state[j] == 1 <==> path.contains(j as usize))
    &&& forall|j: int| 0 <= j < state.len() ==> (state[j] == 2 <==> out.contains(j as usize))
    &&& fields_once(g, path)
    &&& fields_once(g, out)
    &&& forall|k: int| 0 <= k < path.len() - 1 ==> g[path[k] as int].contains(#[trigger] path[k + 1])
    &&& reads_come_first(g, out)
}

/// A list of distinct fields is no longer than the list of all fields.
pub(crate) proof fn lemma_distinct_bounded(s: Seq<usize>, n: int)
    requires
        s.no_duplicates(),
        n >= 0,
        forall|k: int| 0 <= k < s.len() ==> #[trigger] s[k] < n,
    ensures
        s.len() <= n,
{
    let f = |x: usize| x as int;
    assert(vstd::relations::injective(f)) by {
        assert forall|a: usize, b: usize| #[trigger] f(a) == #[trigger] f(b) implies a == b by {}
    }
    s.lemma_no_duplicates_injective(f);
    let t = s.map_values(f);
    t.unique_seq_to_set();
    lemma_int_range(0, n);
    assert(t.to_set().subset_of(set_int_range(0, n))) by {
        assert forall|x: int| t.to_set().contains(x) implies set_int_range(0, n).contains(x) by {
            assert(t.contains(x));
            let k = choose|k: int| 0 <= k < t.len() && t[k] == x;
            assert(s[k] < n);
        }
    }
    lemma_len_subset(t.to_set(), set_int_range(0, n));
}

/// A list that puts every field after the fields it reads leaves no room
/// for a cycle.
proof fn lemma_order_means_no_cycle(g: Seq<Seq<usize>>, out: Seq<usize>)
    requires
        is_eval_order(g, out),
    ensures
        !has_cycle(g),
{
    if has_cycle(g) {
        let c = choose|c: Seq<usize>| is_cycle(g, c);
        // Each step of the cycle lands strictly earlier in `out`.
        let pos = |x: usize| out.index_of(x);
        assert forall|k: int| 0 <= k < c.len() implies 0 <= #[trigger] pos(c[k]) < out.len()
            && out[pos(c[k])] == c[k] by {
            assert(c[k] < g.len());
            assert(out.contains(c[k]));
        }
        assert forall|k: int| 0 <= k < c.len() - 1 implies #[trigger] pos(c[k + 1]) < pos(c[k]) by {
            let a = c[k];
            let b = c[k + 1];
            let pa = pos(a);
            assert(0 <= pa < out.len() && out[pa] == a);
            assert(g[a as int].contains(b));
            let j = choose|j: int| 0 <= j < g[a as int].len() && g[a as int][j] == b;
            assert(out.take(pa).contains(g[out[pa] as int][j]));
            let m = choose|m: int| 0 <= m < out.take(pa).len() && out.take(pa)[m] == b;
            assert(out[m] == b);
            let pb = pos(b);
            assert(out[pb] == b);
            assert(pb == m);
        }
        assert forall|k: int| 0 <= k < c.len() implies #[trigger] pos(c[k]) <= pos(c[0]) - k by {
            lemma_cycle_descends(c, pos, k);
        }
        assert(pos(c.last()) <= pos(c[0]) - (c.len() - 1));
    }
}

proof fn lemma_cycle_descends(c: Seq<usize>, pos: spec_fn(usize) -> int, k: int)
    requires
        0 <= k < c.len(),
        forall|i: int| 0 <= i < c.len() - 1 ==> #[trigger] pos(c[i + 1]) < pos(c[i]),
    ensures
        pos(c[k]) <= pos(c[0]) - k,
    decreases k,
{
    if k > 0 {
        lemma_cycle_descends(c, pos, k - 1);
        assert(pos(c[(k - 1) + 1]) < pos(c[k - 1]));
    }
}

/// Builds `"<prefix>a -> b -> a"` for the cycle `c`.
fn cycle_error(names: &[&str], c: &Vec<usize>) -> (e: String)
    requires
        forall|k: int| 0 <= k < c@.len() ==> #[trigger] c@[k] < names@.len(),
    ensures
        e@ == cycle_message(names@, c@),
{
    let mut e = String::from_str("field ambient terms form a cycle: ");
    let ghost prefix = e@;
    let mut k: usize = 0;
    while k < c.len()
        invariant
            k <= c@.len(),
            prefix == "field ambient terms form a cycle: "@,
            forall|m: int| 0 <= m < c@.len() ==> #[trigger] c@[m] < names@.len(),
            e@ == prefix + join_spec(cycle_names(names@, c@.take(k as int)), " -> "@),
        decreases c@.len() - k,
    {
        let ghost parts = cycle_names(names@, c@.take(k + 1));
        assert(parts.drop_last() =~= cycle_names(names@, c@.take(k as int)));
        assert(parts.last() == names@[c@[k as int] as int]@);
        if k > 0 {
            e.append(" -> ");
        } else {
            assert(cycle_names(names@, c@.take(k as int)) =~= Seq::<Seq<char>>::empty());
        }
        e.append(names[c[k]]);
        k += 1;
    }
    assert(c@.take(k as int) =~= c@);
    e
}

/// The cycle met on stepping from the end of `path` back onto `i`: the path
/// from where `i` stands on it, then `i` again.
pub open spec fn path_cycle(path: Seq<usize>, i: usize) -> Seq<usize> {
    let start = choose|m: int| 0 <= m < path.len() && path[m] == i;
    path.subrange(start, path.len() as int).push(i)
}

/// The depth-first walk from field `i`, given the marks `st` (0 not reached,
/// 1 on `path`, 2 finished) and the finished list `out`: the marks and list
/// after it, or the cycle it runs into first.
pub open spec fn walk_field(
    g: Seq<Seq<usize>>,
    i: usize,
    st: Seq<u8>,
    out: Seq<usize>,
    path: Seq<usize>,
) -> (Seq<u8>, Seq<usize>, Option<Seq<usize>>)
    decreases g.len() - path.len(), 0int,
{
    if i >= st.len() {
        (st, out, None)
    } else if st[i as int] == 2 {
        (st, out, None)
    } else if st[i as int] == 1 {
        (st, out, Some(path_cycle(path, i)))
    } else if path.len() >= g.len() {
        (st, out, None)
    } else {
        let r = walk_reads(g, i, 0, st.update(i as int, 1), out, path.push(i));
        if r.2 is Some {
            r
        } else {
            (r.0.update(i as int, 2), r.1.push(i), None)
        }
    }
}

/// The walk over what field `i` reads, from its `k`-th entry on, in order.
pub open spec fn walk_reads(
    g: Seq<Seq<usize>>,
    i: usize,
    k: int,
    st: Seq<u8>,
    out: Seq<usize>,
    path: Seq<usize>,
) -> (Seq<u8>, Seq<usize>, Option<Seq<usize>>)
    decreases g.len() - path.len(), g[i as int].len() - k + 1,
{
    if i >= g.len() || k < 0 || k >= g[i as int].len() || path.len() > g.len() {
        (st, out, None)
    } else {
        let r = walk_field(g, g[i as int][k], st, out, path);
        if r.2 is Some {
            r
        } else {
            walk_reads(g, i, k + 1, r.0, r.1, path)
        }
    }
}

/// The walks from fields `i`, `i + 1`, ... in turn, each from an empty path:
/// the finished list, or the first cycle met.
pub open spec fn walk_from(g: Seq<Seq<usize>>, i: int, st: Seq<u8>, out: Seq<usize>) -> (
    Seq<usize>,
    Option<Seq<usize>>,
)
    decreases g.len() - i,
{
    if i < 0 || i >= g.len() {
        (out, None)
    } else {
        let r = walk_field(g, i as usize, st, out, Seq::empty());
        if r.2 is Some {
            (r.1, r.2)
        } else {
            walk_from(g, i + 1, r.0, r.1)
        }
    }
}

/// The walk over all fields, from field 0 on, with nothing reached yet.
pub open spec fn walk_all(g: Seq<Seq<usize>>) -> (Seq<usize>, Option<Seq<usize>>) {
    walk_from(g, 0, Seq::new(g.len(), |j: int| 0u8), Seq::empty())
}

fn visit(
    i: usize,
    reads: &[Vec<usize>],
    state: &mut Vec<u8>,
    out: &mut Vec<usize>,
    path: &mut Vec<usize>,
    names: &[&str],
) -> (r: Result<(), String>)
    requires
        i < reads@.len(),
        walk_inv(reads_view(reads@), old(state)@, old(out)@, old(path)@),
        old(path)@.len() > 0 ==> reads_view(reads@)[old(path)@.last() as int].contains(i),
        has_cycle(reads_view(reads@)) ==> names@.len() >= reads@.len(),
    ensures
        r is Ok ==> {
            &&& walk_inv(reads_view(reads@), final(state)@, final(out)@, final(path)@)
            &&& final(path)@ == old(path)@
            &&& final(state)@[i as int] == 2
            &&& final(out)@.take(old(out)@.len() as int) == old(out)@
            &&& final(out)@.len() >= old(out)@.len()
        },
        r matches Err(e) ==> exists|c: Seq<usize>|
            is_cycle(reads_view(reads@), c) && c.drop_last().no_duplicates() && e@ == cycle_message(names@, c),
        r is Ok ==> walk_field(reads_view(reads@), i, old(state)@, old(out)@, old(path)@) == (
            final(state)@,
            final(out)@,
            None::<Seq<usize>>,
        ),
        r matches Err(e) ==> (walk_field(reads_view(reads@), i, old(state)@, old(out)@, old(path)@).2 matches Some(c)
            && e@ == cycle_message(names@, c)),
    decreases reads@.len() - old(path)@.len(),
{
    let ghost g = reads_view(reads@);
    let n = reads.len();
    assert(g.len() == n);
    if state[i] == 2 {
        return Ok(());
    }
    if state[i] == 1 {
        assert(path@.contains(i));
        let mut start: usize = 0;
        while start < path.len() && path[start] != i
            invariant
                start <= path@.len(),
                forall|m: int| 0 <= m < start ==> path@[m] != i,
            decreases path@.len() - start,
        {
            start += 1;
        }
        proof {
            if start >= path@.len() {
                let m = choose|m: int| 0 <= m < path@.len() && path@[m] == i;
                assert(path@[m] != i);
            }
        }
        let mut c: Vec<usize> = Vec::new();
        let mut k = start;
        while k < path.len()
            invariant
                start <= k <= path@.len(),
                c@ == path@.subrange(start as int, k as int),
            decreases path@.len() - k,
        {
            c.push(path[k]);
            k += 1;
        }
        c.push(i);
        let ghost cs = c@;
        assert(is_cycle(g, cs)) by {
            assert(cs[0] == i);
            assert forall|k: int| 0 <= k < cs.len() - 1 implies g[cs[k] as int].contains(
                #[trigger] cs[k + 1],
            ) by {
                if k < cs.len() - 2 {
                    assert(cs[k] == path@[start + k]);
                    assert(cs[k + 1] == path@[start + k + 1]);
                    assert(g[path@[start + k] as int].contains(path@[(start + k) + 1]));
                } else {
                    assert(cs[k] == path@.last());
                }
            }
            assert forall|k: int| 0 <= k < cs.len() implies #[trigger] cs[k] < g.len() by {
                if k < cs.len() - 1 {
                    assert(cs[k] == path@[start + k]);
                }
            }
        }
        proof {
            assert(path@[start as int] == i);
            let m = choose|m: int| 0 <= m < path@.len() && path@[m] == i;
            assert(path@.no_duplicates());
            assert(m == start);
            assert(cs =~= path_cycle(path@, i));
            assert forall|k: int| 0 <= k < cs.len() implies #[trigger] cs[k] < names@.len() by {}
            assert(cs.drop_last() =~= path@.subrange(start as int, path@.len() as int));
            assert(cs.drop_last().no_duplicates()) by {
                assert forall|a: int, b: int| 0 <= a < b < cs.drop_last().len() implies cs.drop_last()[a] != cs.drop_last()[b] by {
                    assert(cs.drop_last()[a] == path@[start + a] && cs.drop_last()[b] == path@[start + b]);
                }
            }
        }
        return Err(cycle_error(names, &c));
    }
    proof {
        assert(!path@.contains(i));
        assert(!out@.contains(i));
    }
    state.set(i, 1);
    let ghost st1 = state@;
    let ghost old_out = out@;
    let ghost old_path = path@;
    path.push(i);
    proof {
        assert(path@.no_duplicates());
        lemma_distinct_bounded(path@, g.len() as int);
        assert forall|j: int| 0 <= j < state@.len() implies (state@[j] == 1 <==> path@.contains(
            j as usize,
        )) by {
            assert(path@ == old_path.push(i));
            assert((j as usize) as int == j);
            assert(path@[old_path.len() as int] == i);
            if j == i {
                assert(state@[j] == 1);
            } else {
                assert(state@[j] == old(state)@[j]);
            }
            if path@.contains(j as usize) && j != i {
                let m = choose|m: int| 0 <= m < path@.len() && path@[m] == j as usize;
                assert(path@[old_path.len() as int] == i);
                assert(m < old_path.len());
                assert(old_path[m] == j as usize);
            }
            if j != i && old_path.contains(j as usize) {
                let m = choose|m: int| 0 <= m < old_path.len() && old_path[m] == j as usize;
                assert(path@[m] == j as usize);
            }
        }
        assert forall|k: int| 0 <= k < path@.len() - 1 implies g[path@[k] as int].contains(
            #[trigger] path@[k + 1],
        ) by {
            if k < old_path.len() - 1 {
                assert(path@[k] == old_path[k] && path@[k + 1] == old_path[k + 1]);
            }
        }
    }
    let list = &reads[i];
    assert(list@ == g[i as int]);
    let mut j: usize = 0;
    while j < list.len()
        invariant
            i < reads@.len(),
            g == reads_view(reads@),
            list@ == g[i as int],
            walk_inv(g, state@, out@, path@),
            path@ == old_path.push(i),
            state@[i as int] == 1,
            forall|jj: int| 0 <= jj < j ==> state@[#[trigger] list@[jj] as int] == 2,
            j <= list@.len(),
            out@.take(old_out.len() as int) == old_out,
            out@.len() >= old_out.len(),
            has_cycle(g) ==> names@.len() >= reads@.len(),
            old_path.len() < g.len(),
            g.len() == reads@.len(),
            g.len() == n,
            old_path == old(path)@,
            walk_reads(g, i, 0, st1, old_out, path@) == walk_reads(g, i, j as int, state@, out@, path@),
            i < old(state)@.len(),
            old(state)@[i as int] == 0,
            st1 == old(state)@.update(i as int, 1),
            old_out == old(out)@,
        decreases list@.len() - j,
    {
        let d = list[j];
        let ghost mid_out = out@;
        let ghost mid_state = state@;
        let ghost mid_path = path@;
        assert(d == g[i as int][j as int]);
        match visit(d, reads, state, out, path, names) {
            Ok(()) => {},
            Err(e) => {
                proof {
                    assert(walk_reads(g, i, j as int, mid_state, mid_out, mid_path) == walk_field(
                        g,
                        d,
                        mid_state,
                        mid_out,
                        mid_path,
                    ));
                    assert(old(state)@[i as int] == 0);
                    assert(st1 == old(state)@.update(i as int, 1));
                    assert(mid_path == old(path)@.push(i));
                    assert(walk_field(g, i, old(state)@, old(out)@, old(path)@) == walk_reads(
                        g,
                        i,
                        0,
                        st1,
                        old_out,
                        mid_path,
                    ));
                }
                return Err(e);
            },
        }
        assert(walk_reads(g, i, j as int, mid_state, mid_out, mid_path) == walk_reads(
            g,
            i,
            j + 1,
            state@,
            out@,
            path@,
        ));
        proof {
            assert forall|jj: int| 0 <= jj < j + 1 implies state@[#[trigger] list@[jj] as int] == 2 by {
                if jj < j {
                    // Finished fields stay finished: they are in `out`, which only grows.
                    let x = list@[jj];
                    assert(x < g.len());
                    assert(mid_out.contains(x));
                    let m = choose|m: int| 0 <= m < mid_out.len() && mid_out[m] == x;
                    assert(out@.take(mid_out.len() as int)[m] == x);
                    assert(out@.contains(x));
                }
            }
            assert(out@.take(old_out.len() as int) =~= old_out) by {
                assert(out@.take(mid_out.len() as int) == mid_out);
                assert forall|m: int| 0 <= m < old_out.len() implies out@[m] == old_out[m] by {
                    assert(out@.take(mid_out.len() as int)[m] == mid_out[m]);
                    assert(mid_out.take(old_out.len() as int)[m] == old_out[m]);
                }
            }
        }
        j += 1;
    }
    let ghost before_pop = out@;
    let ghost before_state = state@;
    assert(walk_reads(g, i, j as int, state@, out@, path@) == (state@, out@, None::<Seq<usize>>));
    path.pop();
    assert(path@ =~= old_path);
    state.set(i, 2);
    out.push(i);
    proof {
        assert(old(state)@[i as int] == 0);
        assert(st1 == old(state)@.update(i as int, 1));
        assert(old_path.push(i) == old(path)@.push(i));
        assert(walk_field(g, i, old(state)@, old(out)@, old(path)@) == (
            before_state.update(i as int, 2),
            before_pop.push(i),
            None::<Seq<usize>>,
        ));
        assert(!before_pop.contains(i));
        assert(out@.no_duplicates());
        assert(out@.take(old_out.len() as int) =~= old_out) by {
            assert forall|m: int| 0 <= m < old_out.len() implies out@[m] == old_out[m] by {
                assert(before_pop.take(old_out.len() as int)[m] == old_out[m]);
            }
        }
        assert forall|jj: int| 0 <= jj < state@.len() implies (state@[jj] == 1 <==> path@.contains(
            jj as usize,
        )) by {
            if jj != i {
                if old_path.contains(jj as usize) {
                    let m = choose|m: int| 0 <= m < old_path.len() && old_path[m] == jj as usize;
                    assert(old_path.push(i)[m] == jj as usize);
                }
                if old_path.push(i).contains(jj as usize) {
                    let m = choose|m: int| 0 <= m < old_path.len() + 1 && old_path.push(i)[m]
                        == jj as usize;
                    assert(m < old_path.len());
                }
            } else {
                if old_path.contains(i) {
                    let m = choose|m: int| 0 <= m < old_path.len() && old_path[m] == i;
                    assert(old_path.push(i)[m] == i);
                    assert(old_path.push(i)[old_path.len() as int] == i);
                }
            }
        }
        assert forall|jj: int| 0 <= jj < state@.len() implies (state@[jj] == 2 <==> out@.contains(
            jj as usize,
        )) by {
            if jj != i && out@.contains(jj as usize) {
                let m = choose|m: int| 0 <= m < out@.len() && out@[m] == jj as usize;
                assert(before_pop[m] == jj as usize);
            }
            if jj != i && before_pop.contains(jj as usize) {
                let m = choose|m: int| 0 <= m < before_pop.len() && before_pop[m] == jj as usize;
                assert(out@[m] == jj as usize);
            }
            if jj == i {
                assert(out@[before_pop.len() as int] == i);
            }
        }
        assert(reads_come_first(g, out@)) by {
            assert forall|k: int, jj: int|
                0 <= k < out@.len() && 0 <= jj < g[out@[k] as int].len() implies out@.take(
                k,
            ).contains(#[trigger] g[out@[k] as int][jj]) by {
                if k < before_pop.len() {
                    assert(out@[k] == before_pop[k]);
                    assert(out@.take(k) =~= before_pop.take(k));
                    assert(before_pop.take(k).contains(g[before_pop[k] as int][jj]));
                } else {
                    assert(out@[k] == i);
                    assert(out@.take(k) =~= before_pop);
                    let x = list@[jj];
                    assert(state@[x as int] == 2);
                }
            }
        }
    }
    Ok(())
}

/// Order fields so each is evaluated after the fields its terms read.
/// `reads[i]` lists what field `i` reads. The walk is depth first from
/// field 0 on (`walk_all`): fields come out in the order it finishes them,
/// and an error names the first cycle it steps onto.
pub fn order(reads: &[Vec<usize>], names: &[&str]) -> (r: Result<Vec<usize>, String>)
    requires
        edges_in_range(reads_view(reads@)),
        has_cycle(reads_view(reads@)) ==> names@.len() >= reads@.len(),
    ensures
        r is Ok <==> !has_cycle(reads_view(reads@)),
        r matches Ok(out) ==> is_eval_order(reads_view(reads@), out@),
        r matches Err(e) ==> exists|c: Seq<usize>|
            is_cycle(reads_view(reads@), c) && c.drop_last().no_duplicates() && e@ == cycle_message(names@, c),
        r matches Ok(out) ==> walk_all(reads_view(reads@)) == (out@, None::<Seq<usize>>),
        r matches Err(e) ==> (walk_all(reads_view(reads@)).1 matches Some(c) && e@ == cycle_message(names@, c)),
{
    let ghost g = reads_view(reads@);
    let n = reads.len();
    let mut state: Vec<u8> = Vec::new();
    let mut k: usize = 0;
    while k < n
        invariant
            k <= n,
            n == reads@.len(),
            state@.len() == k,
            forall|j: int| 0 <= j < k ==> #[trigger] state@[j] == 0,
        decreases n - k,
    {
        state.push(0);
        k += 1;
    }
    let mut out: Vec<usize> = Vec::with_capacity(n);
    let mut path: Vec<usize> = Vec::new();
    assert(walk_inv(g, state@, out@, path@));
    assert(state@ =~= Seq::new(g.len(), |j: int| 0u8));
    assert(out@ =~= Seq::<usize>::empty());
    let mut i: usize = 0;
    while i < n
        invariant
            i <= n,
            n == reads@.len(),
            g == reads_view(reads@),
            walk_inv(g, state@, out@, path@),
            path@.len() == 0,
            forall|j: int| 0 <= j < i ==> #[trigger] state@[j] == 2,
            has_cycle(g) ==> names@.len() >= reads@.len(),
            walk_all(g) == walk_from(g, i as int, state@, out@),
        decreases n - i,
    {
        let ghost before = state@;
        let ghost before_out = out@;
        assert(path@ =~= Seq::<usize>::empty());
        let r = visit(i, reads, &mut state, &mut out, &mut path, names);
        match r {
            Ok(()) => {},
            Err(e) => {
                proof {
                    assert(walk_from(g, i as int, before, before_out).1 == walk_field(
                        g,
                        i,
                        before,
                        before_out,
                        Seq::empty(),
                    ).2);
                    let c = choose|c: Seq<usize>| is_cycle(g, c) && c.drop_last().no_duplicates() && e@ == cycle_message(names@, c);
                    assert(has_cycle(g));
                }
                return Err(e);
            },
        }
        proof {
            assert forall|j: int| 0 <= j < i + 1 implies #[trigger] state@[j] == 2 by {
                if j < i {
                    assert(before[j] == 2);
                    assert(before_out.contains(j as usize));
                    let m = choose|m: int| 0 <= m < before_out.len() && before_out[m] == j as usize;
                    assert(out@.take(before_out.len() as int)[m] == j as usize);
                    assert(out@.contains(j as usize));
                }
            }
            assert(walk_from(g, i as int, before, before_out) == walk_from(
                g,
                i + 1,
                state@,
                out@,
            ));
        }
        i += 1;
    }
    assert(walk_from(g, i as int, state@, out@) == (out@, None::<Seq<usize>>));
    proof {
        assert forall|j: usize| j < g.len() implies #[trigger] out@.contains(j) by {
            assert(state@[j as int] == 2);
        }
        lemma_distinct_bounded(out@, g.len() as int);
        // Every field is listed, and none twice, so the list is exactly as long.
        let all = Seq::new(g.len(), |j: int| j as usize);
        assert(all.no_duplicates());
        assert forall|m: int| 0 <= m < all.len() implies #[trigger] all[m] < g.len() by {}
        lemma_subset_len(all, out@, g.len() as int);
        assert(is_eval_order(g, out@));
        lemma_order_means_no_cycle(g, out@);
    }
    Ok(out)
}

/// A list of distinct fields, all of which another list holds, is no longer
/// than it.
proof fn lemma_subset_len(a: Seq<usize>, b: Seq<usize>, n: int)
    requires
        a.no_duplicates(),
        forall|m: int| 0 <= m < a.len() ==> b.contains(#[trigger] a[m]),
    ensures
        a.len() <= b.len(),
{
    a.unique_seq_to_set();
    assert(a.to_set().subset_of(b.to_set())) by {
        assert forall|x: usize| a.to_set().contains(x) implies b.to_set().contains(x) by {
            let m = choose|m: int| 0 <= m < a.len() && a[m] == x;
            assert(b.contains(a[m]));
        }
    }
    b.lemma_cardinality_of_set();
    assert(b.to_set().finite()) by {
        vstd::seq_lib::seq_to_set_is_finite(b);
    }
    lemma_len_subset(a.to_set(), b.to_set());
}

/// Input `d` is written `{ ambient = a }`, and `resolve` may answer `a`
/// with field `f`.
pub open spec fn ambient_input_of<R: Fn(&str) -> Option<usize>>(d: InputDef, resolve: R, f: usize) -> bool {
    match d {
        InputDef::Source(s) => match s.ambient {
            Some(a) => resolves(resolve, a@, Some(f)),
            None => false,
        },
        _ => false,
    }
}

/// A field that compiled terms read comes from an input written
/// `{ ambient = a }` whose name `resolve` answered with that field.
pub proof fn law_reads_come_from_ambients<R: Fn(&str) -> Option<usize>>(
    def: Seq<(String, TermDef)>,
    ctx: Seq<char>,
    resolve: R,
    ts: Seq<TermView>,
    reads: Seq<usize>,
    f: usize,
)
    requires
        ts.len() == def.len(),
        forall|k: int|
            #![trigger ts[k]]
            0 <= k < def.len() ==> {
                &&& ts[k].2.len() == def[k].1.of@.len()
                &&& forall|j: int|
                    0 <= j < def[k].1.of@.len() ==> input_outcome(
                        &def[k].1.of@[j],
                        term_ctx(ctx, def[k].0@),
                        resolve,
                        Ok(#[trigger] ts[k].2[j]),
                    )
            },
        forall|g: usize|
            reads.contains(g) <==> exists|k: int, j: int|
                0 <= k < ts.len() && 0 <= j < ts[k].2.len() && #[trigger] ts[k].2[j].0 == Src::Ambient(g),
        reads.contains(f),
    ensures
        exists|k: int, j: int|
            0 <= k < def.len() && 0 <= j < def[k].1.of@.len() && ambient_input_of(#[trigger] def[k].1.of@[j], resolve, f),
{
    let (k, j) = choose|k: int, j: int| 0 <= k < ts.len() && 0 <= j < ts[k].2.len() && #[trigger] ts[k].2[j].0 == Src::Ambient(f);
    assert(ts[k].2.len() == def[k].1.of@.len());
    let d = def[k].1.of@[j];
    assert(input_outcome(&d, term_ctx(ctx, def[k].0@), resolve, Ok(ts[k].2[j])));
    match d {
        InputDef::Const(v) => {
            assert(ts[k].2[j].0 == Src::Const(v));
        },
        InputDef::Source(s) => {
            let c = term_ctx(ctx, def[k].0@);
            let sr = choose|sr: Result<Src, Seq<char>>| src_outcome(&s, c, resolve, sr) && then_curve(sr, s.curve@, c, Ok(ts[k].2[j]));
            assert(sr == Ok::<Src, Seq<char>>(Src::Ambient(f)));
            assert(s.ambient is Some);
            assert(def[k].1.of@[j] == d);
            assert(ambient_input_of(def[k].1.of@[j], resolve, f));
        },
    }
}

} // verus!
