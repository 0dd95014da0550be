use rim_sim::field::{AmbEnv, Clock};
use rim_sim::rng::Rng;
use rim_sim::terms::{noise, order, Curve, Env, InputDef, SourceDef, TermDef, Terms, TermsDef, Q};

struct E {
    year: i64,
    hour: i64,
    amb: Vec<i64>,
    tick: u64,
}

impl Env for E {
    fn year(&self) -> i64 {
        self.year
    }
    fn hour(&self) -> i64 {
        self.hour
    }
    fn ambient(&self, f: usize) -> i64 {
        self.amb[f]
    }
    fn tick(&self) -> u64 {
        self.tick
    }
    fn seed(&self) -> u64 {
        1
    }
}

fn to_q(v: f64) -> i64 {
    (v * Q as f64).round() as i64
}

fn from_q(v: i64) -> f64 {
    v as f64 / Q as f64
}

fn float(rng: &mut Rng) -> f64 {
    (rng.next_u64() >> 11) as f64 / (1u64 << 53) as f64
}

fn pts(p: &[[f64; 2]]) -> Vec<[i64; 2]> {
    p.iter().map(|q| [to_q(q[0]), to_q(q[1])]).collect()
}

fn resolve(s: &str) -> Option<usize> {
    ["cloud", "temperature"].iter().position(|x| *x == s)
}

fn source(input: Option<&str>, ambient: Option<&str>, curve: &[[f64; 2]]) -> InputDef {
    InputDef::Source(SourceDef {
        input: input.map(|s| s.to_string()),
        ambient: ambient.map(|s| s.to_string()),
        noise: None,
        period: None,
        curve: pts(curve),
    })
}

#[test]
fn curves_interpolate_and_clamp() {
    let c = Curve::compile(&pts(&[[0.0, 1.0], [10.0, 3.0], [20.0, -1.0]])).unwrap();
    assert_eq!(c.eval(to_q(-5.0)), to_q(1.0));
    assert_eq!(c.eval(to_q(5.0)), to_q(2.0));
    assert_eq!(c.eval(to_q(15.0)), to_q(1.0));
    assert_eq!(c.eval(to_q(99.0)), to_q(-1.0));
    assert!(Curve::compile(&pts(&[[1.0, 0.0], [1.0, 1.0]])).is_err());
}

#[test]
fn terms_sum_products_and_explain() {
    // mean = { of = [10] }
    // day = { scale = 9.0, of = [{ input = "hour", curve = [[3, -1.0], [15, 1.0], [27, -1.0]] },
    //                            { ambient = "cloud", curve = [[0, 1.0], [100, 0.5]] }] }
    let def: TermsDef = vec![
        (
            "day".to_string(),
            TermDef {
                scale: to_q(9.0),
                of: vec![
                    source(Some("hour"), None, &[[3.0, -1.0], [15.0, 1.0], [27.0, -1.0]]),
                    source(None, Some("cloud"), &[[0.0, 1.0], [100.0, 0.5]]),
                ],
            },
        ),
        ("mean".to_string(), TermDef { scale: to_q(1.0), of: vec![InputDef::Const(to_q(10.0))] }),
    ];
    let t = Terms::compile(&def, "field/temperature", &resolve).unwrap();
    let e = E { year: 0, hour: to_q(15.0), amb: vec![to_q(50.0), 0], tick: 0 };
    // 10 + 9 × 1 × 0.75
    assert_eq!(t.eval(&e), to_q(16.75));
    let ex = t.explain(&e);
    assert_eq!(ex.iter().map(|x| x.1).sum::<i64>(), t.eval(&e));
    assert_eq!(ex[0].0, "day");
    assert_eq!(t.reads(), vec![0]);
    let vals = vec![to_q(50.0), 0];
    let clock = Clock { tick: 0, year: 0, hour: to_q(15.0), seed: 1 };
    assert_eq!(t.eval(&AmbEnv::new(clock, &vals)), to_q(16.75));
}

#[test]
fn errors_name_the_term() {
    let bad: TermsDef = vec![("day".to_string(), TermDef { scale: Q, of: vec![source(Some("moon"), None, &[])] })];
    let e = Terms::compile(&bad, "field/temperature", &resolve).unwrap_err();
    assert!(e.contains("field/temperature, term 'day'") && e.contains("moon"), "{e}");
    let bad: TermsDef = vec![("x".to_string(), TermDef { scale: Q, of: vec![source(None, Some("nope"), &[])] })];
    assert!(Terms::compile(&bad, "f", &resolve).unwrap_err().contains("unknown field 'nope'"));
    let bad: TermsDef =
        vec![("x".to_string(), TermDef { scale: Q, of: vec![source(Some("hour"), Some("cloud"), &[])] })];
    assert!(Terms::compile(&bad, "f", &resolve).unwrap_err().contains("exactly one"));
}

/// Integer evaluation tracks an f64 reference closely over random curves.
#[test]
fn fixed_point_matches_float_reference() {
    let mut rng = Rng::new(5);
    let mut worst: f64 = 0.0;
    for _ in 0..2000 {
        let n = 2 + rng.below(6) as usize;
        let mut x = -50.0 + float(&mut rng) * 10.0;
        let points: Vec<[f64; 2]> = (0..n)
            .map(|_| {
                x += 0.5 + float(&mut rng) * 20.0;
                [(x * 100.0).round() / 100.0, ((float(&mut rng) * 60.0 - 30.0) * 100.0).round() / 100.0]
            })
            .collect();
        let c = Curve::compile(&pts(&points)).unwrap();
        let xv = points[0][0] - 5.0 + float(&mut rng) * (points[n - 1][0] - points[0][0] + 10.0);
        let xv = (xv * 100.0).round() / 100.0;
        let reference = {
            if xv <= points[0][0] {
                points[0][1]
            } else if xv >= points[n - 1][0] {
                points[n - 1][1]
            } else {
                let i = points.iter().position(|p| p[0] >= xv).unwrap();
                let (a, b) = (points[i - 1], points[i]);
                a[1] + (b[1] - a[1]) * (xv - a[0]) / (b[0] - a[0])
            }
        };
        let scale = (float(&mut rng) * 4.0 * 100.0).round() / 100.0;
        let got = from_q(to_q(scale) * c.eval(to_q(xv)) / Q);
        worst = worst.max((got - scale * reference).abs());
    }
    assert!(worst < 0.01, "worst error {worst}");
}

#[test]
fn noise_is_smooth_and_bounded() {
    let mut last = noise(9, 0, 1000);
    for t in 1..20_000 {
        let v = noise(9, t, 1000);
        assert!((-Q..=Q).contains(&v));
        assert!((v - last).abs() <= 2 * Q * 3 / 1000 + 2, "jump at {t}");
        last = v;
    }
}

#[test]
fn order_respects_reads_and_finds_cycles() {
    let o = order(&[vec![1], vec![], vec![0]], &["a", "b", "c"]).unwrap();
    let pos = |x| o.iter().position(|&i| i == x).unwrap();
    assert!(pos(1) < pos(0) && pos(0) < pos(2));
    let e = order(&[vec![1], vec![0]], &["a", "b"]).unwrap_err();
    assert!(e.contains("a -> b -> a"), "{e}");
}

#[test]
fn explain_parts_add_up_to_eval() {
    let def: TermsDef = vec![
        ("a".to_string(), TermDef { scale: to_q(2.0), of: vec![source(Some("year"), None, &[])] }),
        ("b".to_string(), TermDef { scale: to_q(-1.5), of: vec![source(None, Some("temperature"), &[])] }),
    ];
    let t = Terms::compile(&def, "f", &resolve).unwrap();
    let e = E { year: to_q(0.25), hour: 0, amb: vec![0, to_q(4.0)], tick: 7 };
    let ex = t.explain(&e);
    assert_eq!(ex.len(), 2);
    assert_eq!(ex[0], ("a".to_string(), to_q(0.5)));
    assert_eq!(ex[1], ("b".to_string(), to_q(-6.0)));
    assert_eq!(t.eval(&e), to_q(-5.5));
    assert_eq!(t.reads(), vec![1]);
    assert!(!t.is_empty());
}

#[test]
fn curve_errors_say_why() {
    assert_eq!(Curve::compile(&[]).unwrap_err(), "empty curve");
    let many: Vec<[i64; 2]> = (0..17).map(|i| [i * Q, 0]).collect();
    assert_eq!(Curve::compile(&many).unwrap_err(), "curve has 17 points (at most 16)");
    assert_eq!(Curve::compile(&[[Q, 0], [0, 0]]).unwrap_err(), "curve x values must increase");
}

#[test]
fn noise_stays_in_range_and_repeats() {
    for t in [0u64, 1, 999, 1000, 123_456] {
        let v = noise(3, t, 1000);
        assert!(-Q <= v && v <= Q);
        assert_eq!(v, noise(3, t, 1000));
    }
}

#[test]
fn the_cycle_named_is_the_first_the_walk_meets() {
    // From field 0 the walk goes a, b, c and steps back onto b.
    let e = order(&[vec![1], vec![2], vec![1]], &["a", "b", "c"]).unwrap_err();
    assert_eq!(e, "field ambient terms form a cycle: b -> c -> b");
    // Fields are finished in the order the walk leaves them.
    assert_eq!(order(&[vec![2], vec![0], vec![]], &["a", "b", "c"]).unwrap(), vec![2, 0, 1]);
}
